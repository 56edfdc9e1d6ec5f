//! Character-level text operations: the views of `str` and `String` are
//! `Seq<char>`, and every operation here is stated over those sequences.
use vstd::prelude::*;

verus! {

/// `String::push` appends one character.
pub assume_specification[ String::push ](s: &mut String, ch: char)
    ensures
        final(s)@ == old(s)@.push(ch),
;

/// The Unicode lower-case form of a text, as `str::to_lowercase` computes it.
pub uninterp spec fn lowercase_of(s: Seq<char>) -> Seq<char>;

/// An ASCII character.
pub open spec fn is_ascii_char(c: char) -> bool {
    (c as u32) < 128
}

/// The lower-case form of an ASCII character: `A`..`Z` become `a`..`z`,
/// every other character stays.
pub open spec fn ascii_lower(c: char) -> char {
    if 'A' <= c && c <= 'Z' {
        ((c as u32) + 32) as char
    } else {
        c
    }
}

/// `str::to_lowercase` maps the text through the Unicode lower-case tables.
/// The tables are not restated here: the result is named `lowercase_of` of
/// the input characters. Of them only the ASCII part is stated: a text of
/// ASCII characters alone has `A`..`Z` turned into `a`..`z` and the rest
/// kept.
pub assume_specification[ str::to_lowercase ](s: &str) -> (res: String)
    ensures
        res@ == lowercase_of(s@),
        (forall|i: int| 0 <= i < s@.len() ==> is_ascii_char(#[trigger] s@[i])) ==> res@
            == s@.map_values(|c: char| ascii_lower(c)),
;

/// The character sequences held by a sequence of vectors.
pub open spec fn chars_view(v: Seq<Vec<char>>) -> Seq<Seq<char>> {
    v.map_values(|x: Vec<char>| x@)
}

/// The character sequences of a sequence of strings.
pub open spec fn texts_view(v: Seq<String>) -> Seq<Seq<char>> {
    v.map_values(|s: String| s@)
}

// ---------------------------------------------------------------------------
// Conversions between `str`/`String` and `Vec<char>`
// ---------------------------------------------------------------------------

/// The characters of `s`, in order.
pub fn chars_of(s: &str) -> (res: Vec<char>)
    ensures
        res@ == s@,
{
    let mut res: Vec<char> = Vec::new();
    for c in it: s.chars()
        invariant
            res@ == it.seq().take(it.index()),
    {
        res.push(c);
    }
    res
}

/// A `String` holding exactly the characters of `v`.
pub fn string_of(v: &Vec<char>) -> (res: String)
    ensures
        res@ == v@,
{
    let mut res = String::new();
    let mut i: usize = 0;
    while i < v.len()
        invariant
            i <= v.len(),
            res@ == v@.take(i as int),
        decreases v.len() - i,
    {
        res.push(v[i]);
        i = i + 1;
        assert(res@ == v@.take(i as int));
    }
    assert(v@.take(v.len() as int) == v@);
    res
}

/// The characters `v[lo..hi]`.
pub fn copy_range(v: &Vec<char>, lo: usize, hi: usize) -> (res: Vec<char>)
    requires
        lo <= hi <= v.len(),
    ensures
        res@ == v@.subrange(lo as int, hi as int),
{
    let mut res: Vec<char> = Vec::new();
    let mut i: usize = lo;
    while i < hi
        invariant
            lo <= i <= hi <= v.len(),
            res@ == v@.subrange(lo as int, i as int),
        decreases hi - i,
    {
        res.push(v[i]);
        i = i + 1;
        assert(res@ == v@.subrange(lo as int, i as int));
    }
    res
}

/// Appends all of `r` to `out`.
pub fn push_all(out: &mut Vec<char>, r: &Vec<char>)
    ensures
        final(out)@ == old(out)@ + r@,
{
    let ghost start = out@;
    let mut i: usize = 0;
    while i < r.len()
        invariant
            i <= r.len(),
            out@ == start + r@.take(i as int),
        decreases r.len() - i,
    {
        out.push(r[i]);
        i = i + 1;
        assert(out@ == start + r@.take(i as int));
    }
    assert(r@.take(r.len() as int) == r@);
}

/// Whether two character sequences are equal.
pub fn same_chars(a: &Vec<char>, b: &Vec<char>) -> (res: bool)
    ensures
        res == (a@ == b@),
{
    if a.len() != b.len() {
        return false;
    }
    let mut i: usize = 0;
    while i < a.len()
        invariant
            i <= a.len() == b.len(),
            forall|k: int| 0 <= k < i ==> a@[k] == b@[k],
        decreases a.len() - i,
    {
        if a[i] != b[i] {
            return false;
        }
        i = i + 1;
    }
    assert(a@ =~= b@);
    true
}

// ---------------------------------------------------------------------------
// White space and trimming
// ---------------------------------------------------------------------------

/// The characters with the Unicode `White_Space` property, which is what
/// `char::is_whitespace` tests.
pub open spec fn is_white_space(c: char) -> bool {
    let u = c as u32;
    ||| 0x9 <= u <= 0xd
    ||| u == 0x20
    ||| u == 0x85
    ||| u == 0xa0
    ||| u == 0x1680
    ||| 0x2000 <= u <= 0x200a
    ||| u == 0x2028
    ||| u == 0x2029
    ||| u == 0x202f
    ||| u == 0x205f
    ||| u == 0x3000
}

pub fn white_space(c: char) -> (res: bool)
    ensures
        res == is_white_space(c),
{
    let u = c as u32;
    (0x9 <= u && u <= 0xd) || u == 0x20 || u == 0x85 || u == 0xa0 || u == 0x1680 || (0x2000 <= u
        && u <= 0x200a) || u == 0x2028 || u == 0x2029 || u == 0x202f || u == 0x205f || u == 0x3000
}

/// `s` without its leading white space.
pub open spec fn trim_start(s: Seq<char>) -> Seq<char>
    decreases s.len(),
{
    if s.len() > 0 && is_white_space(s[0]) {
        trim_start(s.drop_first())
    } else {
        s
    }
}

/// `s` without its trailing white space.
pub open spec fn trim_end(s: Seq<char>) -> Seq<char>
    decreases s.len(),
{
    if s.len() > 0 && is_white_space(s.last()) {
        trim_end(s.drop_last())
    } else {
        s
    }
}

/// `s` without leading and trailing white space, as `str::trim` gives it.
pub open spec fn trimmed(s: Seq<char>) -> Seq<char> {
    trim_end(trim_start(s))
}

/// Removes leading and trailing white space.
pub fn trim(s: &Vec<char>) -> (res: Vec<char>)
    ensures
        res@ == trimmed(s@),
{
    let n = s.len();
    let mut i: usize = 0;
    assert(s@.skip(0) =~= s@);
    while i < n && white_space(s[i])
        invariant
            i <= n == s.len(),
            trim_start(s@) == trim_start(s@.skip(i as int)),
        decreases n - i,
    {
        assert(s@.skip(i as int).drop_first() =~= s@.skip(i + 1));
        i = i + 1;
    }
    assert(trim_start(s@.skip(i as int)) == s@.skip(i as int));
    let mut j: usize = n;
    assert(s@.skip(i as int) =~= s@.subrange(i as int, n as int));
    while j > i && white_space(s[j - 1])
        invariant
            i <= j <= n == s.len(),
            trim_end(s@.skip(i as int)) == trim_end(s@.subrange(i as int, j as int)),
        decreases j - i,
    {
        assert(s@.subrange(i as int, j as int).drop_last() =~= s@.subrange(i as int, j - 1));
        j = j - 1;
    }
    copy_range(s, i, j)
}

/// The position of the first white space character of `s`, or its length.
pub open spec fn white_space_index(s: Seq<char>) -> int
    decreases s.len(),
{
    if s.len() == 0 {
        0
    } else if is_white_space(s[0]) {
        0
    } else {
        1 + white_space_index(s.drop_first())
    }
}

/// The first white-space separated word of `s`, or the empty text when there
/// is none: what `s.split_whitespace().next().unwrap_or("")` gives.
pub open spec fn first_word(s: Seq<char>) -> Seq<char> {
    let t = trim_start(s);
    t.take(white_space_index(t))
}

/// The first white-space separated word of `s`, or the empty text.
pub fn first_word_of(s: &Vec<char>) -> (res: Vec<char>)
    ensures
        res@ == first_word(s@),
{
    let n = s.len();
    let mut i: usize = 0;
    assert(s@.skip(0) =~= s@);
    while i < n && white_space(s[i])
        invariant
            i <= n == s.len(),
            trim_start(s@) == trim_start(s@.skip(i as int)),
        decreases n - i,
    {
        assert(s@.skip(i as int).drop_first() =~= s@.skip(i + 1));
        i = i + 1;
    }
    let ghost t = s@.skip(i as int);
    assert(trim_start(t) == t);
    let mut j: usize = i;
    while j < n && !white_space(s[j])
        invariant
            i <= j <= n == s.len(),
            t == s@.skip(i as int),
            white_space_index(t) == (j - i) + white_space_index(s@.skip(j as int)),
        decreases n - j,
    {
        assert(s@.skip(j as int).drop_first() =~= s@.skip(j + 1));
        j = j + 1;
    }
    assert(white_space_index(s@.skip(j as int)) == 0);
    assert(t.take(j - i) =~= s@.subrange(i as int, j as int));
    copy_range(s, i, j)
}

// ---------------------------------------------------------------------------
// Searching
// ---------------------------------------------------------------------------

/// `p` occurs in `s` starting at position `i`.
pub open spec fn occurs_at(s: Seq<char>, p: Seq<char>, i: int) -> bool {
    &&& 0 <= i
    &&& i + p.len() <= s.len()
    &&& s.subrange(i, i + p.len()) == p
}

/// `p` occurs somewhere in `s`, as `str::contains` tests.
pub open spec fn contains_text(s: Seq<char>, p: Seq<char>) -> bool {
    exists|i: int| occurs_at(s, p, i)
}

/// `s` begins with `p`.
pub open spec fn starts_with(s: Seq<char>, p: Seq<char>) -> bool {
    occurs_at(s, p, 0)
}

/// `s` ends with `p`.
pub open spec fn ends_with(s: Seq<char>, p: Seq<char>) -> bool {
    occurs_at(s, p, s.len() - p.len())
}

/// Whether `p` occurs in `s` at position `i`.
pub fn matches_at(s: &Vec<char>, p: &Vec<char>, i: usize) -> (res: bool)
    ensures
        res == occurs_at(s@, p@, i as int),
{
    if i > s.len() || p.len() > s.len() - i {
        return false;
    }
    let mut k: usize = 0;
    while k < p.len()
        invariant
            k <= p.len(),
            i + p.len() <= s.len(),
            forall|m: int| 0 <= m < k ==> s@[i + m] == p@[m],
        decreases p.len() - k,
    {
        if s[i + k] != p[k] {
            assert(s@.subrange(i as int, i + p.len())[k as int] != p@[k as int]);
            return false;
        }
        k = k + 1;
    }
    assert(s@.subrange(i as int, i + p.len()) =~= p@);
    true
}

/// Whether `p` occurs somewhere in `s`.
pub fn contains(s: &Vec<char>, p: &Vec<char>) -> (res: bool)
    ensures
        res == contains_text(s@, p@),
{
    if p.len() > s.len() {
        return false;
    }
    let last = s.len() - p.len();
    let mut i: usize = 0;
    loop
        invariant
            i <= last,
            last == s.len() - p.len(),
            p.len() <= s.len(),
            forall|j: int| 0 <= j < i ==> !occurs_at(s@, p@, j),
        decreases last - i,
    {
        if matches_at(s, p, i) {
            return true;
        }
        if i == last {
            assert forall|j: int| !occurs_at(s@, p@, j) by {
                if 0 <= j && j + p@.len() <= s@.len() {
                    assert(j <= last);
                }
            }
            return false;
        }
        i = i + 1;
    }
}

/// The position of the first `c` in `s`, or the length of `s`.
pub open spec fn index_of(s: Seq<char>, c: char) -> int
    decreases s.len(),
{
    if s.len() == 0 {
        0
    } else if s[0] == c {
        0
    } else {
        1 + index_of(s.drop_first(), c)
    }
}

pub proof fn lemma_index_of(s: Seq<char>, c: char)
    ensures
        0 <= index_of(s, c) <= s.len(),
        index_of(s, c) < s.len() ==> s[index_of(s, c)] == c,
        forall|k: int| 0 <= k < index_of(s, c) ==> #[trigger] s[k] != c,
    decreases s.len(),
{
    if s.len() > 0 && s[0] != c {
        lemma_index_of(s.drop_first(), c);
        assert forall|k: int| 0 <= k < index_of(s, c) implies #[trigger] s[k] != c by {
            if k > 0 {
                assert(s[k] == s.drop_first()[k - 1]);
            }
        }
    }
}

/// The position of the first `c` in `s` at or after `from`, or `s.len()`.
pub fn find_char(s: &Vec<char>, c: char, from: usize) -> (res: usize)
    requires
        from <= s.len(),
    ensures
        res == from + index_of(s@.skip(from as int), c),
        from <= res <= s.len(),
{
    let mut i = from;
    proof {
        lemma_index_of(s@.skip(from as int), c);
    }
    while i < s.len() && s[i] != c
        invariant
            from <= i <= s.len(),
            index_of(s@.skip(from as int), c) == (i - from) + index_of(s@.skip(i as int), c),
        decreases s.len() - i,
    {
        assert(s@.skip(i as int).drop_first() =~= s@.skip(i + 1));
        i = i + 1;
    }
    i
}

// ---------------------------------------------------------------------------
// Splitting
// ---------------------------------------------------------------------------

/// The pieces of `s` between occurrences of `c`, as `str::split(c)` yields them.
pub open spec fn split_on(s: Seq<char>, c: char) -> Seq<Seq<char>>
    decreases s.len(),
{
    let k = index_of(s, c);
    if k >= s.len() {
        seq![s]
    } else {
        proof {
            lemma_index_of(s, c);
        }
        seq![s.take(k)] + split_on(s.skip(k + 1), c)
    }
}

/// `l` without one trailing carriage return.
pub open spec fn strip_cr(l: Seq<char>) -> Seq<char> {
    if l.len() > 0 && l.last() == '\r' {
        l.drop_last()
    } else {
        l
    }
}

/// The lines of `s`, as `str::lines` yields them: split after each `'\n'`,
/// with the `'\n'` and a `'\r'` right before it removed; a final line ending
/// adds no empty line.
pub open spec fn lines_of(s: Seq<char>) -> Seq<Seq<char>>
    decreases s.len(),
{
    if s.len() == 0 {
        seq![]
    } else {
        let k = index_of(s, '\n');
        if k >= s.len() {
            seq![s]
        } else {
            proof {
                lemma_index_of(s, '\n');
            }
            seq![strip_cr(s.take(k))] + lines_of(s.skip(k + 1))
        }
    }
}

/// The first `c` of `s` stands at `k` when `s[k]` is `c` and no earlier
/// character is.
pub proof fn lemma_index_of_at(s: Seq<char>, c: char, k: int)
    requires
        0 <= k <= s.len(),
        k < s.len() ==> s[k] == c,
        forall|j: int| 0 <= j < k ==> s[j] != c,
    ensures
        index_of(s, c) == k,
    decreases k,
{
    if k > 0 {
        assert(s[0] != c);
        assert forall|j: int| 0 <= j < k - 1 implies s.drop_first()[j] != c by {
            assert(s.drop_first()[j] == s[j + 1]);
        }
        lemma_index_of_at(s.drop_first(), c, k - 1);
    }
}

/// A text with no line feed is one line, as it stands.
pub proof fn lemma_lines_single(a: Seq<char>)
    requires
        a.len() > 0,
        !a.contains('\n'),
    ensures
        lines_of(a) == seq![a],
{
    lemma_index_of_at(a, '\n', a.len() as int);
}

/// The first line feed ends the first line: the lines of `a`, a line feed and
/// `b` are `a` (without a carriage return that ends it) followed by the lines
/// of `b`.
pub proof fn lemma_lines_first(a: Seq<char>, b: Seq<char>)
    requires
        !a.contains('\n'),
    ensures
        lines_of(a + seq!['\n'] + b) == seq![strip_cr(a)] + lines_of(b),
{
    let s = a + seq!['\n'] + b;
    assert forall|j: int| 0 <= j < a.len() implies s[j] != '\n' by {
        assert(s[j] == a[j]);
        if s[j] == '\n' {
            assert(a.contains('\n'));
        }
    }
    lemma_index_of_at(s, '\n', a.len() as int);
    assert(s.take(a.len() as int) =~= a);
    assert(s.skip(a.len() as int + 1) =~= b);
}

/// A line feed added after a text that does not end with one adds no line:
/// it only ends the last line, which then loses a carriage return at its end.
pub proof fn lemma_lines_end_last(c: Seq<char>)
    requires
        c.len() > 0,
        c.last() != '\n',
    ensures
        lines_of(c).len() > 0,
        lines_of(c).last().len() > 0,
        lines_of(c).last().last() == c.last(),
        lines_of(c + seq!['\n']) == lines_of(c).drop_last().push(strip_cr(lines_of(c).last())),
    decreases c.len(),
{
    let k = index_of(c, '\n');
    lemma_index_of(c, '\n');
    if k >= c.len() {
        assert(!c.contains('\n'));
        lemma_lines_single(c);
        lemma_lines_first(c, seq![]);
        assert(c + seq!['\n'] =~= c + seq!['\n'] + Seq::<char>::empty());
        assert(lines_of(Seq::<char>::empty()) =~= Seq::<Seq<char>>::empty());
        assert(seq![strip_cr(c)] + Seq::<Seq<char>>::empty() =~= seq![c].drop_last().push(
            strip_cr(c),
        ));
    } else {
        let a = c.take(k);
        let rest = c.skip(k + 1);
        assert(!a.contains('\n')) by {
            if a.contains('\n') {
                let j = choose|j: int| 0 <= j < a.len() && a[j] == '\n';
                assert(c[j] == '\n');
            }
        }
        assert(c =~= a + seq!['\n'] + rest);
        assert(rest.len() > 0) by {
            if rest.len() == 0 {
                assert(c.last() == c[k]);
            }
        }
        assert(rest.last() == c.last());
        lemma_lines_end_last(rest);
        lemma_lines_first(a, rest);
        lemma_lines_first(a, rest + seq!['\n']);
        assert(c + seq!['\n'] =~= a + seq!['\n'] + (rest + seq!['\n']));
        let lr = lines_of(rest);
        assert((seq![strip_cr(a)] + lr).drop_last().push(strip_cr(lr.last())) =~= seq![
            strip_cr(a),
        ] + lr.drop_last().push(strip_cr(lr.last())));
    }
}

/// A line feed added after a text that does not end a line (with a line feed
/// or a carriage return) adds no line and changes none.
pub proof fn lemma_lines_final_newline(c: Seq<char>)
    requires
        c.len() > 0,
        c.last() != '\n',
        c.last() != '\r',
    ensures
        lines_of(c + seq!['\n']) == lines_of(c),
{
    lemma_lines_end_last(c);
    let l = lines_of(c);
    assert(strip_cr(l.last()) == l.last());
    assert(l.drop_last().push(l.last()) =~= l);
}

/// A white-space character added at the end of a text leaves the text
/// trimmed as it was.
pub proof fn lemma_trimmed_white_end(x: Seq<char>, w: char)
    requires
        is_white_space(w),
    ensures
        trimmed(x.push(w)) == trimmed(x),
{
    lemma_trim_start_push(x, w);
    let t = trim_start(x);
    if t.len() > 0 {
        assert(t.push(w).drop_last() =~= t);
    } else {
        assert(trim_start(x.push(w)) =~= t);
    }
}

proof fn lemma_trim_start_push(x: Seq<char>, w: char)
    requires
        is_white_space(w),
    ensures
        trim_start(x).len() > 0 ==> trim_start(x.push(w)) == trim_start(x).push(w),
        trim_start(x).len() == 0 ==> trim_start(x.push(w)).len() == 0,
    decreases x.len(),
{
    if x.len() == 0 {
        let y = x.push(w);
        assert(y[0] == w);
        assert(y.drop_first() =~= Seq::<char>::empty());
        assert(trim_start(y.drop_first()).len() == 0);
        assert(trim_start(y) == trim_start(y.drop_first()));
    } else if is_white_space(x[0]) {
        lemma_trim_start_push(x.drop_first(), w);
        assert(x.push(w).drop_first() =~= x.drop_first().push(w));
    }
}

/// A character other than the separator added at the end of a text joins its
/// last piece.
pub proof fn lemma_split_push(s: Seq<char>, c: char, x: char)
    requires
        x != c,
    ensures
        split_on(s, c).len() > 0,
        split_on(s.push(x), c) == split_on(s, c).drop_last().push(split_on(s, c).last().push(x)),
    decreases s.len(),
{
    let k = index_of(s, c);
    lemma_index_of(s, c);
    let t = s.push(x);
    if k >= s.len() {
        assert forall|j: int| 0 <= j < t.len() implies t[j] != c by {
            if j < s.len() {
                assert(t[j] == s[j]);
            }
        }
        lemma_index_of_at(t, c, t.len() as int);
        assert(seq![s].drop_last().push(s.push(x)) =~= seq![t]);
    } else {
        assert forall|j: int| 0 <= j < k implies t[j] != c by {
            assert(t[j] == s[j]);
        }
        assert(t[k] == s[k]);
        lemma_index_of_at(t, c, k);
        lemma_split_push(s.skip(k + 1), c, x);
        assert(t.take(k) =~= s.take(k));
        assert(t.skip(k + 1) =~= s.skip(k + 1).push(x));
        let r = split_on(s.skip(k + 1), c);
        assert((seq![s.take(k)] + r).drop_last().push((seq![s.take(k)] + r).last().push(x))
            =~= seq![s.take(k)] + r.drop_last().push(r.last().push(x)));
    }
}

/// The pieces joined with `c` between each two of them.
pub open spec fn join_on(pieces: Seq<Seq<char>>, c: char) -> Seq<char>
    decreases pieces.len(),
{
    if pieces.len() == 0 {
        seq![]
    } else if pieces.len() == 1 {
        pieces[0]
    } else {
        pieces[0] + seq![c] + join_on(pieces.drop_first(), c)
    }
}

/// Splitting at `c` cuts the text at every `c` and nowhere else: there is at
/// least one piece, no piece holds `c`, and the pieces joined with `c` give
/// the text back.
pub proof fn lemma_split_join(s: Seq<char>, c: char)
    ensures
        split_on(s, c).len() > 0,
        forall|i: int| 0 <= i < split_on(s, c).len() ==> !(#[trigger] split_on(s, c)[i]).contains(c),
        join_on(split_on(s, c), c) == s,
    decreases s.len(),
{
    let k = index_of(s, c);
    lemma_index_of(s, c);
    if k >= s.len() {
        assert(!s.contains(c));
    } else {
        let rest = s.skip(k + 1);
        lemma_split_join(rest, c);
        let head = s.take(k);
        let ps = split_on(s, c);
        let r = split_on(rest, c);
        assert(ps == seq![head] + r);
        assert(ps.drop_first() =~= r);
        assert(!head.contains(c)) by {
            if head.contains(c) {
                let j = choose|j: int| 0 <= j < head.len() && head[j] == c;
                assert(s[j] == c);
            }
        }
        assert forall|i: int| 0 <= i < ps.len() implies !(#[trigger] ps[i]).contains(c) by {
            if i > 0 {
                assert(ps[i] == r[i - 1]);
            }
        }
        assert(head + seq![c] + rest =~= s);
    }
}

/// White space added at the start of a text leaves it trimmed as it was, and a
/// text with no white space at either end is its own trimmed form.
pub proof fn lemma_trimmed_ends(x: Seq<char>, w: char)
    ensures
        is_white_space(w) ==> trimmed(seq![w] + x) == trimmed(x),
        (x.len() == 0 || (!is_white_space(x[0]) && !is_white_space(x.last()))) ==> trimmed(x)
            == x,
{
    assert((seq![w] + x).drop_first() =~= x);
    assert((seq![w] + x)[0] == w);
    if x.len() > 0 && !is_white_space(x[0]) {
        assert(trim_start(x) == x);
    }
}

/// The first word of a text is what comes before its first white space,
/// once leading white space is skipped.
pub proof fn lemma_first_word(lead: Seq<char>, word: Seq<char>, w: char, rest: Seq<char>)
    requires
        forall|i: int| 0 <= i < lead.len() ==> is_white_space(#[trigger] lead[i]),
        word.len() > 0,
        forall|i: int| 0 <= i < word.len() ==> !is_white_space(#[trigger] word[i]),
        is_white_space(w),
    ensures
        first_word(lead + word + seq![w] + rest) == word,
        first_word(lead + word) == word,
    decreases lead.len(),
{
    let t = word + seq![w] + rest;
    if lead.len() > 0 {
        let l2 = lead.drop_first();
        assert forall|i: int| 0 <= i < l2.len() implies is_white_space(#[trigger] l2[i]) by {
            assert(l2[i] == lead[i + 1]);
        }
        lemma_first_word(l2, word, w, rest);
        assert((lead + word + seq![w] + rest).drop_first() =~= l2 + word + seq![w] + rest);
        assert((lead + word).drop_first() =~= l2 + word);
        assert((lead + word + seq![w] + rest)[0] == lead[0]);
        assert((lead + word)[0] == lead[0]);
    } else {
        assert(lead + word + seq![w] + rest =~= t);
        assert(lead + word =~= word);
        assert(trim_start(t) == t);
        assert(trim_start(word) == word);
        lemma_white_space_index_at(t, word.len() as int);
        lemma_white_space_index_at(word, word.len() as int);
        assert(t.take(word.len() as int) =~= word);
        assert(word.take(word.len() as int) =~= word);
    }
}

proof fn lemma_white_space_index_at(s: Seq<char>, k: int)
    requires
        0 <= k <= s.len(),
        k < s.len() ==> is_white_space(s[k]),
        forall|j: int| 0 <= j < k ==> !is_white_space(#[trigger] s[j]),
    ensures
        white_space_index(s) == k,
    decreases k,
{
    if k > 0 {
        assert(!is_white_space(s[0]));
        assert forall|j: int| 0 <= j < k - 1 implies !is_white_space(#[trigger] s.drop_first()[j]) by {
            assert(s.drop_first()[j] == s[j + 1]);
        }
        lemma_white_space_index_at(s.drop_first(), k - 1);
    }
}

/// Splits `s` at each `c`.
pub fn split_at_char(s: &Vec<char>, c: char) -> (res: Vec<Vec<char>>)
    ensures
        chars_view(res@) == split_on(s@, c),
{
    let mut out: Vec<Vec<char>> = Vec::new();
    let mut pos: usize = 0;
    assert(s@.skip(0) =~= s@);
    loop
        invariant
            pos <= s.len(),
            split_on(s@, c) == chars_view(out@) + split_on(s@.skip(pos as int), c),
        decreases s.len() - pos,
    {
        let k = find_char(s, c, pos);
        let piece = copy_range(s, pos, k);
        let ghost t = s@.skip(pos as int);
        proof {
            lemma_index_of(t, c);
            assert(t.take(k - pos) =~= piece@);
        }
        let ghost before = out@;
        out.push(piece);
        assert(chars_view(out@) =~= chars_view(before).push(piece@));
        if k == s.len() {
            assert(split_on(s@, c) =~= chars_view(out@));
            return out;
        }
        assert(t.skip(k - pos + 1) =~= s@.skip(k + 1));
        pos = k + 1;
    }
}

/// Splits `s` into lines.
pub fn split_lines(s: &Vec<char>) -> (res: Vec<Vec<char>>)
    ensures
        chars_view(res@) == lines_of(s@),
{
    let mut out: Vec<Vec<char>> = Vec::new();
    let mut pos: usize = 0;
    assert(s@.skip(0) =~= s@);
    while pos < s.len()
        invariant
            pos <= s.len(),
            lines_of(s@) == chars_view(out@) + lines_of(s@.skip(pos as int)),
        decreases s.len() - pos,
    {
        let k = find_char(s, '\n', pos);
        let ghost t = s@.skip(pos as int);
        proof {
            lemma_index_of(t, '\n');
        }
        let ghost before = out@;
        if k == s.len() {
            let piece = copy_range(s, pos, k);
            assert(piece@ =~= t);
                out.push(piece);
            assert(chars_view(out@) =~= chars_view(before).push(piece@));
            pos = k;
            assert(s@.skip(pos as int) =~= Seq::<char>::empty());
        } else {
            let end = if k > pos && s[k - 1] == '\r' {
                k - 1
            } else {
                k
            };
            let piece = copy_range(s, pos, end);
            assert(piece@ =~= strip_cr(t.take(k - pos)));
                out.push(piece);
            assert(chars_view(out@) =~= chars_view(before).push(piece@));
            assert(t.skip(k - pos + 1) =~= s@.skip(k + 1));
            pos = k + 1;
        }
    }
    assert(s@.skip(pos as int) =~= Seq::<char>::empty());
    assert(chars_view(out@) + Seq::<Seq<char>>::empty() =~= chars_view(out@));
    out
}

// ---------------------------------------------------------------------------
// Replacing
// ---------------------------------------------------------------------------

/// `s` with every non-overlapping occurrence of `p`, taken from the left,
/// replaced by `r`: what `str::replace` gives for a non-empty `p`.
pub open spec fn replace_all(s: Seq<char>, p: Seq<char>, r: Seq<char>) -> Seq<char>
    decreases s.len(),
{
    if s.len() == 0 {
        seq![]
    } else if p.len() > 0 && occurs_at(s, p, 0) {
        r + replace_all(s.skip(p.len() as int), p, r)
    } else {
        seq![s[0]] + replace_all(s.drop_first(), p, r)
    }
}

/// Replacing keeps the text up to the first occurrence of the pattern, puts
/// the replacement in place of that occurrence, and goes on after it; a text
/// in which the pattern does not occur is kept whole.
pub proof fn lemma_replace_all_first(a: Seq<char>, p: Seq<char>, r: Seq<char>, y: Seq<char>)
    requires
        p.len() > 0,
        forall|k: int| 0 <= k < a.len() ==> !occurs_at(a + p + y, p, k),
    ensures
        replace_all(a + p + y, p, r) == a + r + replace_all(y, p, r),
        !contains_text(a, p) ==> replace_all(a, p, r) == a,
{
    let t = p + y;
    assert(a + p + y =~= a + t);
    lemma_replace_plain(a, p, r, t);
    assert(occurs_at(t, p, 0)) by {
        assert(t.subrange(0, p.len() as int) =~= p);
    }
    assert(t.skip(p.len() as int) =~= y);
    assert(a + p + y =~= a + t);
    assert(a + (r + replace_all(y, p, r)) =~= a + r + replace_all(y, p, r));
    if !contains_text(a, p) {
        assert(a + Seq::<char>::empty() =~= a);
        lemma_replace_plain(a, p, r, Seq::<char>::empty());
        assert(a + Seq::<char>::empty() =~= a);
        assert(a + replace_all(Seq::<char>::empty(), p, r) =~= a);
    }
}

proof fn lemma_replace_plain(a: Seq<char>, p: Seq<char>, r: Seq<char>, y: Seq<char>)
    requires
        p.len() > 0,
        forall|k: int| 0 <= k < a.len() ==> !occurs_at(a + y, p, k),
    ensures
        replace_all(a + y, p, r) == a + replace_all(y, p, r),
    decreases a.len(),
{
    let t = a + y;
    if a.len() == 0 {
        assert(t =~= y);
        assert(a + replace_all(y, p, r) =~= replace_all(y, p, r));
    } else {
        assert(!occurs_at(t, p, 0));
        let a2 = a.drop_first();
        assert(t.drop_first() =~= a2 + y);
        assert forall|k: int| 0 <= k < a2.len() implies !occurs_at(a2 + y, p, k) by {
            if occurs_at(a2 + y, p, k) {
                assert((a2 + y).subrange(k, k + p.len()) =~= t.subrange(k + 1, k + 1 + p.len()));
                assert(occurs_at(t, p, k + 1));
            }
        }
        lemma_replace_plain(a2, p, r, y);
        assert(t[0] == a[0]);
        assert(seq![a[0]] + (a2 + replace_all(y, p, r)) =~= a + replace_all(y, p, r));
    }
}

/// Replaces every occurrence of `p` in `s` by `r`.
pub fn replace(s: &Vec<char>, p: &Vec<char>, r: &Vec<char>) -> (res: Vec<char>)
    requires
        p.len() > 0,
    ensures
        res@ == replace_all(s@, p@, r@),
{
    let mut out: Vec<char> = Vec::new();
    let mut i: usize = 0;
    assert(s@.skip(0) =~= s@);
    while i < s.len()
        invariant
            i <= s.len(),
            p.len() > 0,
            replace_all(s@, p@, r@) == out@ + replace_all(s@.skip(i as int), p@, r@),
        decreases s.len() - i,
    {
        let ghost t = s@.skip(i as int);
        let ghost before = out@;
        if matches_at(s, p, i) {
            assert(t.subrange(0, p@.len() as int) =~= s@.subrange(i as int, i + p@.len()));
            assert(occurs_at(t, p@, 0));
            push_all(&mut out, r);
            assert(t.skip(p@.len() as int) =~= s@.skip(i + p@.len()));
            i = i + p.len();
            assert(out@ + replace_all(s@.skip(i as int), p@, r@) =~= before + (r@
                + replace_all(t.skip(p@.len() as int), p@, r@)));
        } else {
            assert(!occurs_at(t, p@, 0)) by {
                if t.len() >= p@.len() {
                    assert(t.subrange(0, p@.len() as int) =~= s@.subrange(
                        i as int,
                        i + p@.len(),
                    ));
                }
            }
            out.push(s[i]);
            assert(t.drop_first() =~= s@.skip(i + 1));
            i = i + 1;
            assert(out@ + replace_all(s@.skip(i as int), p@, r@) =~= before + (seq![t[0]]
                + replace_all(t.drop_first(), p@, r@)));
        }
    }
    assert(out@ + Seq::<char>::empty() =~= out@);
    out
}

} // verus!
