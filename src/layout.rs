use vstd::prelude::*;
use vstd::std_specs::iter::IteratorSpec;

verus! {

/// Whether `c` has Unicode's White_Space property.
pub open spec fn is_white(c: char) -> bool {
    ('\u{9}' <= c && c <= '\u{d}') || c == ' ' || c == '\u{85}' || c == '\u{a0}' || c == '\u{1680}'
        || ('\u{2000}' <= c && c <= '\u{200a}') || c == '\u{2028}' || c == '\u{2029}'
        || c == '\u{202f}' || c == '\u{205f}' || c == '\u{3000}'
}

/// Relies on `char::is_whitespace`, which tells whether a character has
/// Unicode's White_Space property: the code points listed by `is_white`.
#[verifier::external_body]
fn char_is_whitespace(c: char) -> (r: bool)
    ensures
        r == is_white(c),
{
    c.is_whitespace()
}

/// The pieces of `s` between line breaks; the last one may be empty.
pub open spec fn split_lines(s: Seq<char>) -> Seq<Seq<char>>
    decreases s.len(),
{
    if s.len() == 0 {
        seq![Seq::empty()]
    } else {
        let prev = split_lines(s.drop_last());
        if s.last() == '\n' {
            prev.push(Seq::empty())
        } else {
            prev.update(prev.len() - 1, prev.last().push(s.last()))
        }
    }
}

/// `l` without leading white space.
pub open spec fn trim_start(l: Seq<char>) -> Seq<char>
    decreases l.len(),
{
    if l.len() > 0 && is_white(l[0]) {
        trim_start(l.drop_first())
    } else {
        l
    }
}

/// `l` without trailing white space.
pub open spec fn trim_end(l: Seq<char>) -> Seq<char>
    decreases l.len(),
{
    if l.len() > 0 && is_white(l.last()) {
        trim_end(l.drop_last())
    } else {
        l
    }
}

pub open spec fn trim(l: Seq<char>) -> Seq<char> {
    trim_end(trim_start(l))
}

/// The trimmed lines that are not empty, in order.
pub open spec fn keep_rows(lines: Seq<Seq<char>>) -> Seq<Seq<char>>
    decreases lines.len(),
{
    if lines.len() == 0 {
        Seq::empty()
    } else {
        let kept = keep_rows(lines.drop_last());
        let t = trim(lines.last());
        if t.len() > 0 {
            kept.push(t)
        } else {
            kept
        }
    }
}

/// The number of characters in all of `rows`.
pub open spec fn total_len(rows: Seq<Seq<char>>) -> nat
    decreases rows.len(),
{
    if rows.len() == 0 {
        0
    } else {
        total_len(rows.drop_last()) + rows.last().len()
    }
}

/// Rows of one length `w` hold `w` characters each.
pub proof fn lemma_total_len_uniform(rows: Seq<Seq<char>>, w: nat)
    requires
        forall|i: int| 0 <= i < rows.len() ==> #[trigger] rows[i].len() == w,
    ensures
        total_len(rows) == rows.len() * w,
    decreases rows.len(),
{
    if rows.len() > 0 {
        let init = rows.drop_last();
        assert forall|i: int| 0 <= i < init.len() implies #[trigger] init[i].len() == w by {
            assert(init[i] == rows[i]);
        }
        lemma_total_len_uniform(init, w);
        let n = rows.len() as int;
        assert((n - 1) * w + w == n * w) by (nonlinear_arith);
    }
}

/// The rows of a board written as text: one per line, trimmed, with blank
/// lines left out.
pub open spec fn layout_rows(s: Seq<char>) -> Seq<Seq<char>> {
    keep_rows(split_lines(s))
}

pub proof fn lemma_split_lines_nonempty(s: Seq<char>)
    ensures
        split_lines(s).len() >= 1,
    decreases s.len(),
{
    if s.len() > 0 {
        lemma_split_lines_nonempty(s.drop_last());
    }
}

proof fn lemma_trim_start(l: Seq<char>, a: int)
    requires
        0 <= a <= l.len(),
        forall|k: int| 0 <= k < a ==> is_white(#[trigger] l[k]),
        a == l.len() || !is_white(l[a]),
    ensures
        trim_start(l) == l.subrange(a, l.len() as int),
    decreases a,
{
    if a == 0 {
        assert(l.subrange(0, l.len() as int) =~= l);
    } else {
        lemma_trim_start(l.drop_first(), a - 1);
        assert(l.drop_first().subrange(a - 1, l.len() - 1) =~= l.subrange(a, l.len() as int));
    }
}

proof fn lemma_trim_end(l: Seq<char>, b: int)
    requires
        0 <= b <= l.len(),
        forall|k: int| b <= k < l.len() ==> is_white(#[trigger] l[k]),
        b == 0 || !is_white(l[b - 1]),
    ensures
        trim_end(l) == l.subrange(0, b),
    decreases l.len() - b,
{
    if b == l.len() {
        assert(l.subrange(0, b) =~= l);
    } else {
        lemma_trim_end(l.drop_last(), b);
        assert(l.drop_last().subrange(0, b) =~= l.subrange(0, b));
    }
}

/// The characters of `s`.
fn chars_of(s: &str) -> (r: Vec<char>)
    ensures
        r@ == s@,
{
    let mut it = s.chars();
    let mut out: Vec<char> = Vec::new();
    loop
        invariant
            out@ + it.remaining() == s@,
            it.obeys_prophetic_iter_laws(),
            it.decrease() is Some,
        ensures
            out@ == s@,
        decreases it.decrease()->0,
    {
        let ghost before = it.remaining();
        match it.next() {
            Some(c) => {
                out.push(c);
                proof {
                    assert(out@ + it.remaining() =~= s@);
                }
            },
            None => {
                assert(out@ =~= s@);
                break;
            },
        }
    }
    out
}

/// `line` without surrounding white space.
fn trim_line(line: &Vec<char>) -> (r: Vec<char>)
    ensures
        r@ == trim(line@),
        r@.len() <= line@.len(),
{
    let n = line.len();
    let mut a: usize = 0;
    while a < n && char_is_whitespace(line[a])
        invariant
            a <= n == line@.len(),
            forall|k: int| 0 <= k < a ==> is_white(#[trigger] line@[k]),
        decreases n - a,
    {
        a = a + 1;
    }
    let mut b: usize = n;
    while b > a && char_is_whitespace(line[b - 1])
        invariant
            a <= b <= n == line@.len(),
            forall|k: int| b <= k < n ==> is_white(#[trigger] line@[k]),
        decreases b - a,
    {
        b = b - 1;
    }
    let mut out: Vec<char> = Vec::new();
    let mut k: usize = a;
    while k < b
        invariant
            a <= k <= b <= n == line@.len(),
            out@ == line@.subrange(a as int, k as int),
        decreases b - k,
    {
        out.push(line[k]);
        proof {
            assert(out@ =~= line@.subrange(a as int, k + 1));
        }
        k = k + 1;
    }
    proof {
        lemma_trim_start(line@, a as int);
        let m = line@.subrange(a as int, n as int);
        assert forall|k: int| (b - a) <= k < m.len() implies is_white(#[trigger] m[k]) by {
            assert(m[k] == line@[a + k]);
        }
        if b > a {
            assert(m[b - a - 1] == line@[b - 1]);
        }
        lemma_trim_end(m, b - a);
        assert(m.subrange(0, b - a) =~= line@.subrange(a as int, b as int));
    }
    out
}

/// The rows of the board that `text` writes down.
pub fn layout_rows_of(text: &str) -> (r: Vec<Vec<char>>)
    ensures
        r@.len() == layout_rows(text@).len(),
        forall|i: int| 0 <= i < r@.len() ==> (#[trigger] r@[i])@ == layout_rows(text@)[i],
        total_len(layout_rows(text@)) <= text@.len(),
        text@.len() <= usize::MAX,
{
    let chars = chars_of(text);
    let mut rows: Vec<Vec<char>> = Vec::new();
    let mut cur: Vec<char> = Vec::new();
    let mut i: usize = 0;
    while i < chars.len()
        invariant
            i <= chars@.len(),
            chars@ == text@,
            split_lines(chars@.take(i as int)).len() >= 1,
            cur@ == split_lines(chars@.take(i as int)).last(),
            total_len(keep_rows(split_lines(chars@.take(i as int)).drop_last())) + cur@.len() <= i,
            rows@.len() == keep_rows(split_lines(chars@.take(i as int)).drop_last()).len(),
            forall|k: int|
                0 <= k < rows@.len() ==> (#[trigger] rows@[k])@ == keep_rows(
                    split_lines(chars@.take(i as int)).drop_last(),
                )[k],
        decreases chars.len() - i,
    {
        let ghost pre = chars@.take(i as int);
        let ghost next = chars@.take(i + 1);
        proof {
            assert(next.drop_last() =~= pre);
            assert(next.last() == chars@[i as int]);
        }
        let c = chars[i];
        if c == '\n' {
            let t = trim_line(&cur);
            if t.len() > 0 {
                rows.push(t);
            }
            cur = Vec::new();
            proof {
                let lp = split_lines(pre);
                assert(split_lines(next).drop_last() =~= lp);
                assert(keep_rows(lp) == if trim(lp.last()).len() > 0 {
                    keep_rows(lp.drop_last()).push(trim(lp.last()))
                } else {
                    keep_rows(lp.drop_last())
                });
                let kept = keep_rows(lp.drop_last());
                assert(kept.push(trim(lp.last())).drop_last() =~= kept);
                assert forall|k: int| 0 <= k < rows@.len() implies (#[trigger] rows@[k])@ == keep_rows(
                    split_lines(next).drop_last(),
                )[k] by {}
            }
        } else {
            cur.push(c);
            proof {
                let lp = split_lines(pre);
                let ln = split_lines(next);
                assert(ln == lp.update(lp.len() - 1, lp.last().push(c)));
                assert(ln.drop_last() =~= lp.drop_last());
                assert(cur@ =~= ln.last());
            }
        }
        i = i + 1;
    }
    let t = trim_line(&cur);
    if t.len() > 0 {
        rows.push(t);
    }
    proof {
        let l = split_lines(chars@);
        assert(chars@.take(i as int) =~= chars@);
        assert(keep_rows(l) == if trim(l.last()).len() > 0 {
            keep_rows(l.drop_last()).push(trim(l.last()))
        } else {
            keep_rows(l.drop_last())
        });
        let kept = keep_rows(l.drop_last());
        assert(kept.push(trim(l.last())).drop_last() =~= kept);
    }
    rows
}

} // verus!
