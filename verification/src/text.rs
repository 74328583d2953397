//! Text as sequences of characters: line splitting, joining, trimming and
//! prefix tests, each stated over `Seq<char>` and implemented over `Vec<char>`.
use vstd::prelude::*;

verus! {

// ---------------------------------------------------------------------------
// Mathematical model
// ---------------------------------------------------------------------------
/// A character with the Unicode `White_Space` property (what
/// `char::is_whitespace` tests).
pub open spec fn is_space(c: char) -> bool {
    ||| c == ' '
    ||| ('\t' <= c && c <= '\r')
    ||| c == '\u{85}'
    ||| c == '\u{a0}'
    ||| c == '\u{1680}'
    ||| ('\u{2000}' <= c && c <= '\u{200a}')
    ||| c == '\u{2028}'
    ||| c == '\u{2029}'
    ||| c == '\u{202f}'
    ||| c == '\u{205f}'
    ||| c == '\u{3000}'
}

/// The pieces of `s` between `'\n'` characters: one more piece than `s`
/// has newlines, empty pieces included.
pub open spec fn split_nl(s: Seq<char>) -> Seq<Seq<char>>
    decreases s.len(),
{
    if s.len() == 0 {
        seq![Seq::<char>::empty()]
    } else {
        let init = split_nl(s.drop_last());
        if s.last() == '\n' {
            init.push(Seq::<char>::empty())
        } else {
            init.update(init.len() - 1, init.last().push(s.last()))
        }
    }
}

/// A line that was ended by `"\r\n"` loses its `'\r'`.
pub open spec fn strip_cr(l: Seq<char>) -> Seq<char> {
    if l.len() > 0 && l.last() == '\r' {
        l.drop_last()
    } else {
        l
    }
}

/// The lines of `s`, as `str::lines` yields them: every piece that a `'\n'`
/// ends, without a trailing `'\r'`, then the unterminated rest if it is not
/// empty.
pub open spec fn lines(s: Seq<char>) -> Seq<Seq<char>> {
    let pieces = split_nl(s);
    let ended = pieces.drop_last().map_values(|l: Seq<char>| strip_cr(l));
    if pieces.last().len() == 0 {
        ended
    } else {
        ended.push(pieces.last())
    }
}

/// The lines `ls` joined with `'\n'` between consecutive lines.
pub open spec fn join_lines(ls: Seq<Seq<char>>) -> Seq<char>
    decreases ls.len(),
{
    if ls.len() == 0 {
        Seq::<char>::empty()
    } else if ls.len() == 1 {
        ls[0]
    } else {
        join_lines(ls.drop_last()) + seq!['\n'] + ls.last()
    }
}

/// `s` without its leading whitespace.
pub open spec fn trim_start(s: Seq<char>) -> Seq<char>
    decreases s.len(),
{
    if s.len() > 0 && is_space(s[0]) {
        trim_start(s.drop_first())
    } else {
        s
    }
}

/// `p` is a prefix of `s`.
pub open spec fn starts_with(s: Seq<char>, p: Seq<char>) -> bool {
    p.len() <= s.len() && s.take(p.len() as int) == p
}

/// `p` occurs in `s` starting at index `i`.
pub open spec fn occurs_at(s: Seq<char>, p: Seq<char>, i: int) -> bool {
    0 <= i && i + p.len() <= s.len() && s.subrange(i, i + p.len()) == p
}

/// `i` is the start of the first occurrence of `p` in `s`.
pub open spec fn is_first_occurrence(s: Seq<char>, p: Seq<char>, i: int) -> bool {
    occurs_at(s, p, i) && forall|j: int| #[trigger] occurs_at(s, p, j) ==> i <= j
}

/// The views of a sequence of character vectors.
pub open spec fn views(v: Seq<Vec<char>>) -> Seq<Seq<char>> {
    v.map_values(|l: Vec<char>| l@)
}

// ---------------------------------------------------------------------------
// Facts about the model
// ---------------------------------------------------------------------------
/// There is always at least one piece.
pub proof fn lemma_split_nl_len(s: Seq<char>)
    ensures
        split_nl(s).len() >= 1,
    decreases s.len(),
{
    if s.len() > 0 {
        lemma_split_nl_len(s.drop_last());
    }
}

/// Joining pieces whose last piece was replaced by `x`.
proof fn lemma_join_lines_update_last(p: Seq<Seq<char>>, x: Seq<char>)
    requires
        p.len() >= 1,
    ensures
        join_lines(p.update(p.len() - 1, x)) == if p.len() == 1 {
            x
        } else {
            join_lines(p.drop_last()) + seq!['\n'] + x
        },
{
    let q = p.update(p.len() - 1, x);
    assert(q.drop_last() =~= p.drop_last());
    if p.len() == 1 {
        assert(q[0] == x);
    }
}

/// Joining the pieces of `s` with newlines gives `s` back.
pub proof fn lemma_join_split_nl(s: Seq<char>)
    ensures
        join_lines(split_nl(s)) == s,
    decreases s.len(),
{
    if s.len() == 0 {
        assert(split_nl(s) =~= seq![Seq::<char>::empty()]);
        assert(s =~= Seq::<char>::empty());
    } else {
        let init = s.drop_last();
        let p = split_nl(init);
        lemma_split_nl_len(init);
        lemma_join_split_nl(init);
        if s.last() == '\n' {
            let q = p.push(Seq::<char>::empty());
            assert(q.drop_last() =~= p);
            assert(join_lines(q) =~= join_lines(p) + seq!['\n'] + Seq::<char>::empty());
            assert(s =~= init.push('\n'));
        } else {
            lemma_join_lines_update_last(p, p.last().push(s.last()));
            if p.len() == 1 {
                assert(p[0] == p.last());
                assert(join_lines(p) == p[0]);
            } else {
                assert(join_lines(p) == join_lines(p.drop_last()) + seq!['\n'] + p.last());
            }
            assert(s =~= init.push(s.last()));
        }
    }
}

/// A character that `s` lacks (or a newline) occurs in no piece of `s`.
pub proof fn lemma_split_nl_avoids(s: Seq<char>, c: char)
    requires
        c == '\n' || !s.contains(c),
    ensures
        forall|j: int, k: int|
            0 <= j < split_nl(s).len() && 0 <= k < split_nl(s)[j].len() ==> split_nl(s)[j][k] != c,
    decreases s.len(),
{
    if s.len() > 0 {
        let init = s.drop_last();
        lemma_split_nl_len(init);
        if c != '\n' {
            assert forall|i: int| 0 <= i < init.len() implies init[i] != c by {
                assert(init[i] == s[i]);
            }
            assert(s.last() == s[s.len() - 1]);
        }
        lemma_split_nl_avoids(init, c);
    }
}

/// Splitting `s` into lines and joining them with newlines gives `s` back
/// when `s` holds no `'\r'` and does not end with a newline.
pub proof fn lemma_join_lines_of_lines(s: Seq<char>)
    requires
        !s.contains('\r'),
        s.len() == 0 || s.last() != '\n',
    ensures
        join_lines(lines(s)) == s,
{
    let p = split_nl(s);
    lemma_split_nl_len(s);
    lemma_split_nl_avoids(s, '\r');
    lemma_join_split_nl(s);
    let ended = p.drop_last().map_values(|l: Seq<char>| strip_cr(l));
    assert forall|j: int| 0 <= j < p.drop_last().len() implies strip_cr(p.drop_last()[j])
        == p.drop_last()[j] by {
        let l = p[j];
        if l.len() > 0 {
            assert(l.last() == l[l.len() - 1]);
        }
    }
    assert(ended =~= p.drop_last());
    if s.len() == 0 {
        assert(p =~= seq![Seq::<char>::empty()]);
        assert(lines(s) =~= Seq::<Seq<char>>::empty());
    } else {
        assert(p.last().len() > 0);
        assert(lines(s) =~= p);
    }
}

/// Appending characters without a newline extends the last piece.
proof fn lemma_split_nl_append(a: Seq<char>, b: Seq<char>)
    requires
        !b.contains('\n'),
    ensures
        split_nl(a + b) == split_nl(a).update(
            split_nl(a).len() - 1,
            split_nl(a).last() + b,
        ),
    decreases b.len(),
{
    lemma_split_nl_len(a);
    let p = split_nl(a);
    if b.len() == 0 {
        assert(a + b =~= a);
        assert(p.last() + b =~= p.last());
        assert(p.update(p.len() - 1, p.last()) =~= p);
    } else {
        let b0 = b.drop_last();
        let c = b.last();
        assert(!b0.contains('\n')) by {
            assert forall|i: int| 0 <= i < b0.len() implies b0[i] != '\n' by {
                assert(b0[i] == b[i]);
            }
        }
        assert(c != '\n') by {
            assert(b[b.len() - 1] == c);
        }
        lemma_split_nl_append(a, b0);
        assert((a + b).drop_last() =~= a + b0);
        assert((a + b).last() == c);
        let q = split_nl(a + b0);
        assert(q.len() == p.len());
        assert(q.last() == p.last() + b0);
        assert(split_nl(a + b) == q.update(q.len() - 1, q.last().push(c)));
        assert((p.last() + b0).push(c) =~= p.last() + b);
        assert(split_nl(a + b) =~= p.update(p.len() - 1, p.last() + b));
    }
}

/// Splitting lines joined with newlines gives them back, when none of them
/// holds a newline.
pub proof fn lemma_split_nl_of_join(k: Seq<Seq<char>>)
    requires
        k.len() >= 1,
        forall|i: int| 0 <= i < k.len() ==> !(#[trigger] k[i]).contains('\n'),
    ensures
        split_nl(join_lines(k)) == k,
    decreases k.len(),
{
    if k.len() == 1 {
        let e = Seq::<char>::empty();
        lemma_split_nl_append(e, k[0]);
        assert(e + k[0] =~= k[0]);
        assert(split_nl(e) =~= seq![e]);
        assert(split_nl(k[0]) =~= k);
    } else {
        let k0 = k.drop_last();
        assert forall|i: int| 0 <= i < k0.len() implies !(#[trigger] k0[i]).contains('\n') by {
            assert(k0[i] == k[i]);
        }
        lemma_split_nl_of_join(k0);
        let a = join_lines(k0);
        let an = a.push('\n');
        assert(an.drop_last() =~= a);
        assert(split_nl(an) == k0.push(Seq::<char>::empty()));
        assert(join_lines(k) == a + seq!['\n'] + k.last());
        assert(a + seq!['\n'] + k.last() =~= an + k.last());
        assert(!k.last().contains('\n')) by {
            assert(k[k.len() - 1] == k.last());
        }
        lemma_split_nl_append(an, k.last());
        let pn = k0.push(Seq::<char>::empty());
        assert(Seq::<char>::empty() + k.last() =~= k.last());
        assert(pn.update(pn.len() - 1, k.last()) =~= k);
    }
}

/// The lines of lines joined with newlines are those lines, when none of
/// them holds a newline or a `'\r'` and the last one is not empty.
pub proof fn lemma_lines_of_join(k: Seq<Seq<char>>)
    requires
        forall|i: int|
            0 <= i < k.len() ==> !(#[trigger] k[i]).contains('\n') && !k[i].contains('\r'),
        k.len() == 0 || k.last().len() > 0,
    ensures
        lines(join_lines(k)) == k,
{
    if k.len() == 0 {
        assert(join_lines(k) =~= Seq::<char>::empty());
        assert(split_nl(Seq::<char>::empty()) =~= seq![Seq::<char>::empty()]);
        assert(lines(join_lines(k)) =~= k);
    } else {
        lemma_split_nl_of_join(k);
        let ended = k.drop_last().map_values(|l: Seq<char>| strip_cr(l));
        assert forall|j: int| 0 <= j < k.drop_last().len() implies strip_cr(k.drop_last()[j])
            == k.drop_last()[j] by {
            let l = k[j];
            assert(!l.contains('\r'));
            if l.len() > 0 {
                assert(l.last() == l[l.len() - 1]);
            }
        }
        assert(ended =~= k.drop_last());
        assert(lines(join_lines(k)) =~= k);
    }
}

/// The lines of `s` hold no newline, and no character that `s` lacks.
pub proof fn lemma_lines_avoid(s: Seq<char>, c: char)
    requires
        c == '\n' || !s.contains(c),
    ensures
        forall|i: int| 0 <= i < lines(s).len() ==> !(#[trigger] lines(s)[i]).contains(c),
{
    let p = split_nl(s);
    lemma_split_nl_len(s);
    lemma_split_nl_avoids(s, c);
    assert forall|i: int| 0 <= i < lines(s).len() implies !(#[trigger] lines(s)[i]).contains(c) by {
        if i < p.len() - 1 {
            let l = p[i];
            assert(lines(s)[i] == strip_cr(l));
            assert forall|k: int| 0 <= k < strip_cr(l).len() implies strip_cr(l)[k] != c by {
                assert(strip_cr(l)[k] == l[k]);
            }
        } else {
            assert(lines(s)[i] == p.last());
            assert forall|k: int| 0 <= k < p.last().len() implies p.last()[k] != c by {
                assert(p.last() == p[p.len() - 1]);
            }
        }
    }
}

// ---------------------------------------------------------------------------
// Executable counterparts
// ---------------------------------------------------------------------------
/// The characters of `s`, in order.
pub fn chars_of(s: &str) -> (r: Vec<char>)
    ensures
        r@ == s@,
{
    let mut r: Vec<char> = Vec::new();
    for c in it: s.chars()
        invariant
            r@ == it.seq().take(it.index() as int),
            it.seq() == s@,
    {
        r.push(c);
    }
    r
}

/// The string made of the characters `v`; calls `String::from_iter`.
#[verifier::external_body]
pub(crate) fn string_from_chars(v: &Vec<char>) -> (r: String)
    ensures
        r@ == v@,
{
    String::from_iter(v.iter())
}

/// Whether `c` is whitespace.
pub fn is_space_char(c: char) -> (r: bool)
    ensures
        r == is_space(c),
{
    c == ' ' || ('\t' <= c && c <= '\r') || c == '\u{85}' || c == '\u{a0}' || c == '\u{1680}'
        || ('\u{2000}' <= c && c <= '\u{200a}') || c == '\u{2028}' || c == '\u{2029}' || c
        == '\u{202f}' || c == '\u{205f}' || c == '\u{3000}'
}

/// The lines of `s` (see `lines`).
pub fn split_lines(s: &Vec<char>) -> (r: Vec<Vec<char>>)
    ensures
        views(r@) == lines(s@),
{
    let mut done: Vec<Vec<char>> = Vec::new();
    let mut cur: Vec<char> = Vec::new();
    let n = s.len();
    proof {
        assert(s@.take(0) =~= Seq::<char>::empty());
    }
    for i in 0..n
        invariant
            n == s@.len(),
            split_nl(s@.take(i as int)).len() == done@.len() + 1,
            forall|j: int|
                0 <= j < done@.len() ==> #[trigger] done@[j]@ == strip_cr(
                    split_nl(s@.take(i as int))[j],
                ),
            cur@ == split_nl(s@.take(i as int)).last(),
    {
        let c = s[i];
        let ghost pre = s@.take(i as int);
        let ghost post = s@.take(i + 1);
        proof {
            assert(post.drop_last() =~= pre);
            assert(post.last() == c);
            lemma_split_nl_len(pre);
        }
        if c == '\n' {
            let mut line = cur;
            let ln = line.len();
            if ln > 0 && line[ln - 1] == '\r' {
                line.pop();
            }
            done.push(line);
            cur = Vec::new();
        } else {
            cur.push(c);
        }
    }
    proof {
        assert(s@.take(n as int) =~= s@);
    }
    let ghost pieces = split_nl(s@);
    let ghost ended = pieces.drop_last().map_values(|l: Seq<char>| strip_cr(l));
    proof {
        assert(views(done@) =~= ended);
    }
    if cur.len() > 0 {
        done.push(cur);
        proof {
            assert(views(done@) =~= ended.push(pieces.last()));
        }
    }
    done
}

/// The lines `ls` joined with newlines (see `join_lines`).
pub fn join_lines_exec(ls: &Vec<Vec<char>>) -> (r: Vec<char>)
    ensures
        r@ == join_lines(views(ls@)),
{
    let mut r: Vec<char> = Vec::new();
    let n = ls.len();
    for i in 0..n
        invariant
            n == ls@.len(),
            r@ == join_lines(views(ls@).take(i as int)),
    {
        let ghost before = views(ls@).take(i as int);
        let ghost after = views(ls@).take(i + 1);
        proof {
            assert(after.drop_last() =~= before);
            assert(after.last() == ls@[i as int]@);
            if i == 0 {
                assert(after =~= seq![ls@[0]@]);
            }
        }
        if i > 0 {
            r.push('\n');
        }
        let line = &ls[i];
        let m = line.len();
        let ghost start = r@;
        for k in 0..m
            invariant
                m == line@.len(),
                r@ == start + line@.take(k as int),
        {
            r.push(line[k]);
            proof {
                assert(line@.take(k + 1) =~= line@.take(k as int).push(line@[k as int]));
            }
        }
        proof {
            assert(line@.take(m as int) =~= line@);
            if i == 0 {
                assert(start =~= Seq::<char>::empty());
                assert(r@ =~= line@);
            } else {
                assert(r@ =~= join_lines(before) + seq!['\n'] + after.last());
            }
        }
    }
    proof {
        assert(views(ls@).take(n as int) =~= views(ls@));
    }
    r
}

/// The index of the first character of `s` that is not whitespace
/// (`s.len()` when there is none).
pub fn trim_start_index(s: &Vec<char>) -> (r: usize)
    ensures
        r <= s@.len(),
        s@.skip(r as int) == trim_start(s@),
{
    let mut i: usize = 0;
    proof {
        assert(s@.skip(0) =~= s@);
    }
    while i < s.len() && is_space_char(s[i])
        invariant
            i <= s@.len(),
            trim_start(s@.skip(i as int)) == trim_start(s@),
        decreases s@.len() - i,
    {
        proof {
            assert(s@.skip(i as int).drop_first() =~= s@.skip(i + 1));
        }
        i = i + 1;
    }
    i
}

/// The characters `s[from..to]`.
pub fn sub_chars(s: &Vec<char>, from: usize, to: usize) -> (r: Vec<char>)
    requires
        from <= to <= s@.len(),
    ensures
        r@ == s@.subrange(from as int, to as int),
{
    let mut r: Vec<char> = Vec::new();
    let mut k = from;
    while k < to
        invariant
            from <= k <= to <= s@.len(),
            r@ == s@.subrange(from as int, k as int),
        decreases to - k,
    {
        r.push(s[k]);
        proof {
            assert(s@.subrange(from as int, k + 1) =~= s@.subrange(from as int, k as int).push(
                s@[k as int],
            ));
        }
        k = k + 1;
    }
    r
}

/// Whether `p` occurs in `s` at index `at`.
pub fn occurs_at_exec(s: &Vec<char>, p: &Vec<char>, at: usize) -> (r: bool)
    ensures
        r == occurs_at(s@, p@, at as int),
{
    if at > s.len() || p.len() > s.len() - at {
        return false;
    }
    let mut k: usize = 0;
    while k < p.len()
        invariant
            at + p@.len() <= s@.len(),
            s@.len() == s.len(),
            k <= p@.len(),
            forall|j: int| 0 <= j < k ==> s@[at + j] == p@[j],
        decreases p@.len() - k,
    {
        if s[at + k] != p[k] {
            proof {
                assert(s@.subrange(at as int, at + p@.len())[k as int] != p@[k as int]);
            }
            return false;
        }
        k = k + 1;
    }
    proof {
        assert(s@.subrange(at as int, at + p@.len()) =~= p@);
    }
    true
}

/// Whether `p` is a prefix of `s@.skip(from)`.
pub fn starts_with_from(s: &Vec<char>, from: usize, p: &Vec<char>) -> (r: bool)
    requires
        from <= s@.len(),
    ensures
        r == starts_with(s@.skip(from as int), p@),
{
    let r = occurs_at_exec(s, p, from);
    proof {
        let t = s@.skip(from as int);
        if p@.len() <= t.len() {
            assert(t.take(p@.len() as int) =~= s@.subrange(from as int, from + p@.len()));
        }
    }
    r
}

/// Whether `a` and `b` hold the same characters.
pub fn same_chars(a: &Vec<char>, b: &Vec<char>) -> (r: bool)
    ensures
        r == (a@ == b@),
{
    if a.len() != b.len() {
        return false;
    }
    let mut k: usize = 0;
    while k < a.len()
        invariant
            a@.len() == b@.len(),
            k <= a@.len(),
            forall|j: int| 0 <= j < k ==> a@[j] == b@[j],
        decreases a@.len() - k,
    {
        if a[k] != b[k] {
            return false;
        }
        k = k + 1;
    }
    proof {
        assert(a@ =~= b@);
    }
    true
}

/// Where `p` first occurs in `s`, if it does.
pub fn first_occurrence(s: &Vec<char>, p: &Vec<char>) -> (r: Option<usize>)
    ensures
        match r {
            Some(i) => is_first_occurrence(s@, p@, i as int),
            None => forall|j: int| !occurs_at(s@, p@, j),
        },
{
    let n = s.len();
    let mut k: usize = 0;
    loop
        invariant
            k <= n,
            n == s@.len(),
            forall|j: int| 0 <= j < k ==> !#[trigger] occurs_at(s@, p@, j),
        decreases n - k,
    {
        if occurs_at_exec(s, p, k) {
            return Some(k);
        }
        if k == n {
            proof {
                assert forall|j: int| !occurs_at(s@, p@, j) by {
                    if j > k {
                        assert(j + p@.len() > s@.len());
                    }
                }
            }
            return None;
        }
        k = k + 1;
    }
}

/// Appends the characters `src` to `dst`.
pub fn append_chars(dst: &mut Vec<char>, src: &Vec<char>)
    ensures
        final(dst)@ == old(dst)@ + src@,
{
    let m = src.len();
    let ghost start = dst@;
    for k in 0..m
        invariant
            m == src@.len(),
            dst@ == start + src@.take(k as int),
    {
        dst.push(src[k]);
        proof {
            assert(src@.take(k + 1) =~= src@.take(k as int).push(src@[k as int]));
        }
    }
    proof {
        assert(src@.take(m as int) =~= src@);
    }
}

} // verus!
