//! Text helpers for the task fields: the order in which tags are listed,
//! comma-separated lists, trimming white space, and small decimal numbers.

use vstd::prelude::*;
use crate::date::{digit_char, digit_value, is_digit};

verus! {

/// Lexicographic order on character sequences, by code point; a proper
/// prefix comes first. This is the order of `str`'s `Ord`.
pub open spec fn lex_lt(a: Seq<char>, b: Seq<char>) -> bool
    decreases a.len(),
{
    if a.len() == 0 {
        b.len() > 0
    } else if b.len() == 0 {
        false
    } else if a[0] != b[0] {
        a[0] < b[0]
    } else {
        lex_lt(a.drop_first(), b.drop_first())
    }
}

/// Each element comes strictly before every later one.
pub open spec fn strictly_sorted(s: Seq<Seq<char>>) -> bool {
    forall|i: int, j: int| 0 <= i < j < s.len() ==> lex_lt(#[trigger] s[i], #[trigger] s[j])
}

pub proof fn lemma_lex_irreflexive(a: Seq<char>)
    ensures
        !lex_lt(a, a),
    decreases a.len(),
{
    if a.len() > 0 {
        lemma_lex_irreflexive(a.drop_first());
    }
}

pub proof fn lemma_lex_asymmetric(a: Seq<char>, b: Seq<char>)
    ensures
        !(lex_lt(a, b) && lex_lt(b, a)),
    decreases a.len(),
{
    if a.len() > 0 && b.len() > 0 && a[0] == b[0] {
        lemma_lex_asymmetric(a.drop_first(), b.drop_first());
    }
}

pub proof fn lemma_lex_transitive(a: Seq<char>, b: Seq<char>, c: Seq<char>)
    requires
        lex_lt(a, b),
        lex_lt(b, c),
    ensures
        lex_lt(a, c),
    decreases a.len(),
{
    if a.len() > 0 && b.len() > 0 && c.len() > 0 && a[0] == b[0] && b[0] == c[0] {
        lemma_lex_transitive(a.drop_first(), b.drop_first(), c.drop_first());
    }
}

pub proof fn lemma_lex_total(a: Seq<char>, b: Seq<char>)
    ensures
        a == b || lex_lt(a, b) || lex_lt(b, a),
    decreases a.len(),
{
    if a.len() > 0 && b.len() > 0 && a[0] == b[0] {
        lemma_lex_total(a.drop_first(), b.drop_first());
        if a.drop_first() == b.drop_first() {
            assert(a =~= seq![a[0]] + a.drop_first());
            assert(b =~= seq![b[0]] + b.drop_first());
        }
    } else if a.len() == 0 && b.len() == 0 {
        assert(a =~= b);
    }
}

/// Two strictly sorted sequences that hold the same elements are equal.
pub proof fn lemma_strictly_sorted_unique(a: Seq<Seq<char>>, b: Seq<Seq<char>>)
    requires
        strictly_sorted(a),
        strictly_sorted(b),
        a.to_set() == b.to_set(),
    ensures
        a == b,
    decreases a.len(),
{
    if a.len() == 0 {
        if b.len() > 0 {
            assert(b.to_set().contains(b[0]));
        }
        assert(a =~= b);
    } else {
        assert(a.to_set().contains(a[0]));
        assert(b.len() > 0);
        assert(b.to_set().contains(b[0]));
        let j = choose|j: int| 0 <= j < b.len() && b[j] == a[0];
        let i = choose|i: int| 0 <= i < a.len() && a[i] == b[0];
        if a[0] != b[0] {
            assert(j > 0 && i > 0);
            lemma_lex_asymmetric(a[0], b[0]);
            assert(lex_lt(b[0], b[j]));
            assert(lex_lt(a[0], a[i]));
        }
        let a1 = a.drop_first();
        let b1 = b.drop_first();
        assert forall|x: Seq<char>| a1.to_set().contains(x) implies b1.to_set().contains(x) by {
            let k = choose|k: int| 0 <= k < a1.len() && a1[k] == x;
            assert(a[k + 1] == x);
            assert(lex_lt(a[0], a[k + 1]));
            lemma_lex_irreflexive(x);
            assert(b.to_set().contains(x));
            let m = choose|m: int| 0 <= m < b.len() && b[m] == x;
            assert(m != 0);
            assert(b1[m - 1] == x);
        }
        assert forall|x: Seq<char>| b1.to_set().contains(x) implies a1.to_set().contains(x) by {
            let k = choose|k: int| 0 <= k < b1.len() && b1[k] == x;
            assert(b[k + 1] == x);
            assert(lex_lt(b[0], b[k + 1]));
            lemma_lex_irreflexive(x);
            assert(a.to_set().contains(x));
            let m = choose|m: int| 0 <= m < a.len() && a[m] == x;
            assert(m != 0);
            assert(a1[m - 1] == x);
        }
        assert(a1.to_set() =~= b1.to_set());
        assert(strictly_sorted(a1));
        assert(strictly_sorted(b1));
        lemma_strictly_sorted_unique(a1, b1);
        assert(a =~= seq![a[0]] + a1);
        assert(b =~= seq![b[0]] + b1);
    }
}

/// `x` placed after every element that comes before it, counting from the
/// end.
pub open spec fn insert_sorted(q: Seq<Seq<char>>, x: Seq<char>) -> Seq<Seq<char>>
    decreases q.len(),
{
    if q.len() == 0 {
        seq![x]
    } else if lex_lt(q.last(), x) {
        q.push(x)
    } else {
        insert_sorted(q.drop_last(), x).push(q.last())
    }
}

proof fn lemma_insert_sorted(q: Seq<Seq<char>>, x: Seq<char>)
    requires
        strictly_sorted(q),
        !q.contains(x),
    ensures
        strictly_sorted(insert_sorted(q, x)),
        insert_sorted(q, x).to_set() == q.to_set().insert(x),
    decreases q.len(),
{
    if q.len() == 0 {
        assert(seq![x].to_set() =~= q.to_set().insert(x)) by {
            assert(seq![x][0] == x);
        }
    } else if lex_lt(q.last(), x) {
        q.lemma_push_to_set_commute(x);
        assert forall|i: int, j: int| 0 <= i < j < q.len() + 1 implies lex_lt(
            #[trigger] q.push(x)[i],
            #[trigger] q.push(x)[j],
        ) by {
            if j == q.len() && i < q.len() - 1 {
                lemma_lex_transitive(q[i], q.last(), x);
            }
        }
    } else {
        let dl = q.drop_last();
        let last = q.last();
        assert(strictly_sorted(dl));
        assert(!dl.contains(x)) by {
            if dl.contains(x) {
                let k = choose|k: int| 0 <= k < dl.len() && dl[k] == x;
                assert(q[k] == x);
            }
        }
        lemma_insert_sorted(dl, x);
        let r1 = insert_sorted(dl, x);
        assert(last != x) by {
            assert(q[q.len() - 1] == last);
        }
        lemma_lex_total(last, x);
        assert forall|j: int| 0 <= j < r1.len() implies lex_lt(#[trigger] r1[j], last) by {
            assert(r1.to_set().contains(r1[j]));
            if r1[j] != x {
                assert(dl.to_set().contains(r1[j]));
                let k = choose|k: int| 0 <= k < dl.len() && dl[k] == r1[j];
                assert(q[k] == dl[k]);
            }
        }
        r1.lemma_push_to_set_commute(last);
        dl.lemma_push_to_set_commute(last);
        assert(dl.push(last) =~= q);
        assert(r1.to_set().insert(last) =~= q.to_set().insert(x));
    }
}

/// Every finite set of strings can be listed in strictly increasing order.
pub proof fn lemma_sorted_listing_exists(tags: Set<Seq<char>>)
    requires
        tags.finite(),
    ensures
        exists|q: Seq<Seq<char>>| q.to_set() == tags && strictly_sorted(q),
    decreases tags.len(),
{
    if tags.len() == 0 {
        tags.lemma_len0_is_empty();
        let q = Seq::<Seq<char>>::empty();
        assert(q.to_set() =~= tags);
    } else {
        let x = tags.choose();
        let rest = tags.remove(x);
        lemma_sorted_listing_exists(rest);
        let q0 = choose|q: Seq<Seq<char>>| q.to_set() == rest && strictly_sorted(q);
        assert(!q0.contains(x)) by {
            if q0.contains(x) {
                let k = choose|k: int| 0 <= k < q0.len() && q0[k] == x;
                assert(q0.to_set().contains(q0[k]));
            }
        }
        lemma_insert_sorted(q0, x);
        assert(rest.insert(x) =~= tags);
        let q = insert_sorted(q0, x);
        assert(q.to_set() == tags && strictly_sorted(q));
    }
}

/// Whether `a` comes strictly before `b` in the order `lex_lt`.
pub fn str_lt(a: &str, b: &str) -> (r: bool)
    ensures
        r == lex_lt(a@, b@),
{
    let na = a.unicode_len();
    let nb = b.unicode_len();
    let mut i: usize = 0;
    assert(a@.subrange(0, na as int) =~= a@);
    assert(b@.subrange(0, nb as int) =~= b@);
    while i < na && i < nb
        invariant
            na == a@.len(),
            nb == b@.len(),
            i <= na,
            i <= nb,
            lex_lt(a@, b@) == lex_lt(a@.subrange(i as int, na as int), b@.subrange(i as int, nb as int)),
        decreases na - i,
    {
        let ca = a.get_char(i);
        let cb = b.get_char(i);
        let ghost sa = a@.subrange(i as int, na as int);
        let ghost sb = b@.subrange(i as int, nb as int);
        if ca != cb {
            return ca < cb;
        }
        assert(sa.drop_first() =~= a@.subrange(i + 1, na as int));
        assert(sb.drop_first() =~= b@.subrange(i + 1, nb as int));
        i = i + 1;
    }
    i < nb
}

/// The elements of `s`, each followed by a comma but the last.
pub open spec fn join_commas(s: Seq<Seq<char>>) -> Seq<char>
    decreases s.len(),
{
    if s.len() == 0 {
        Seq::empty()
    } else if s.len() == 1 {
        s[0]
    } else {
        join_commas(s.drop_last()) + seq![','] + s.last()
    }
}

/// Joins the strings of `items`, in order, with a comma between each two.
pub fn join_with_commas(items: &Vec<String>) -> (r: String)
    ensures
        r@ == join_commas(items@.map_values(|t: String| t@)),
{
    let ghost views = items@.map_values(|t: String| t@);
    let mut r = String::new();
    let mut i: usize = 0;
    while i < items.len()
        invariant
            i <= items.len(),
            views == items@.map_values(|t: String| t@),
            r@ == join_commas(views.take(i as int)),
        decreases items.len() - i,
    {
        if i > 0 {
            r.append(",");
        }
        r.append(items[i].as_str());
        proof {
            reveal_strlit(",");
            let t = views.take(i + 1);
            assert(t.drop_last() =~= views.take(i as int));
            if i == 0 {
                assert(r@ =~= join_commas(t));
            } else {
                assert(r@ =~= join_commas(t));
            }
        }
        i = i + 1;
    }
    assert(views.take(items.len() as int) =~= views);
    r
}


pub open spec fn views_of(items: Seq<String>) -> Seq<Seq<char>> {
    items.map_values(|t: String| t@)
}

/// The strings of `items` in strictly increasing order (`items` holds no
/// string twice).
pub fn sorted_strings(items: &Vec<String>) -> (r: Vec<String>)
    requires
        views_of(items@).no_duplicates(),
    ensures
        strictly_sorted(views_of(r@)),
        views_of(r@).to_set() == views_of(items@).to_set(),
        r@.len() == items@.len(),
{
    let ghost src = views_of(items@);
    let mut out: Vec<String> = Vec::new();
    let mut i: usize = 0;
    while i < items.len()
        invariant
            i <= items.len(),
            src == views_of(items@),
            src.no_duplicates(),
            strictly_sorted(views_of(out@)),
            views_of(out@).to_set() == src.take(i as int).to_set(),
            out@.len() == i,
        decreases items.len() - i,
    {
        let t = &items[i];
        let ghost tv = t@;
        let ghost before = views_of(out@);
        let mut p: usize = 0;
        while p < out.len()
            invariant
                p <= out@.len(),
                before == views_of(out@),
                tv == t@,
                forall|k: int| 0 <= k < p ==> lex_lt(#[trigger] before[k], tv),
            ensures
                p <= out@.len(),
                forall|k: int| 0 <= k < p ==> lex_lt(#[trigger] before[k], tv),
                p < out@.len() ==> !lex_lt(before[p as int], tv),
            decreases out.len() - p,
        {
            assert(before[p as int] == out@[p as int]@);
            if !str_lt(out[p].as_str(), t.as_str()) {
                break;
            }
            p = p + 1;
        }
        proof {
            // `t` is not yet listed: the items are distinct.
            assert(!before.to_set().contains(tv)) by {
                if before.to_set().contains(tv) {
                    assert(src.take(i as int).to_set().contains(tv));
                    let k = choose|k: int| 0 <= k < i && src.take(i as int)[k] == tv;
                    assert(src[k] == src[i as int]);
                }
            }
            if p < before.len() {
                lemma_lex_total(before[p as int], tv);
                assert(before.to_set().contains(before[p as int]));
            }
        }
        out.insert(p, t.clone());
        proof {
            let after = views_of(out@);
            assert(after =~= before.insert(p as int, tv));
            assert forall|a: int, b: int| 0 <= a < b < after.len() implies lex_lt(
                #[trigger] after[a],
                #[trigger] after[b],
            ) by {
                if b < p {
                } else if b == p {
                } else if a < p {
                    assert(lex_lt(before[a], before[b - 1]));
                } else if a == p {
                    if b - 1 > p {
                        assert(lex_lt(before[p as int], before[b - 1]));
                        lemma_lex_transitive(tv, before[p as int], before[b - 1]);
                    }
                } else {
                    assert(lex_lt(before[a - 1], before[b - 1]));
                }
            }
            assert(src.take(i + 1) =~= src.take(i as int).push(tv));
            assert(after.to_set() =~= before.to_set().insert(tv)) by {
                assert forall|x: Seq<char>| after.to_set().contains(x) implies before.to_set().insert(tv).contains(x) by {
                    let k = choose|k: int| 0 <= k < after.len() && after[k] == x;
                    if k < p {
                        assert(before[k] == x);
                    } else if k > p {
                        assert(before[k - 1] == x);
                    }
                }
                assert forall|x: Seq<char>| before.to_set().insert(tv).contains(x) implies after.to_set().contains(x) by {
                    if x == tv {
                        assert(after[p as int] == x);
                    } else {
                        let k = choose|k: int| 0 <= k < before.len() && before[k] == x;
                        if k < p {
                            assert(after[k] == x);
                        } else {
                            assert(after[k + 1] == x);
                        }
                    }
                }
            }
            src.take(i as int).lemma_push_to_set_commute(tv);
        }
        i = i + 1;
    }
    assert(src.take(items.len() as int) =~= src);
    out
}

/// The pieces of `s` between commas, in order: one more than there are
/// commas, empty ones included. This is how `str::split(',')` cuts.
pub open spec fn split_commas(s: Seq<char>) -> Seq<Seq<char>>
    decreases s.len(),
{
    if s.len() == 0 {
        seq![Seq::empty()]
    } else {
        let prev = split_commas(s.drop_last());
        if s.last() == ',' {
            prev.push(Seq::empty())
        } else {
            prev.update(prev.len() - 1, prev.last().push(s.last()))
        }
    }
}

/// Cuts `s` at each comma.
pub fn split_at_commas(s: &str) -> (r: Vec<String>)
    ensures
        views_of(r@) == split_commas(s@),
{
    let n = s.unicode_len();
    let mut pieces: Vec<String> = Vec::new();
    let mut start: usize = 0;
    let mut i: usize = 0;
    assert(s@.take(0) =~= Seq::<char>::empty());
    assert(views_of(pieces@) =~= Seq::<Seq<char>>::empty());
    while i < n
        invariant
            n == s@.len(),
            start <= i <= n,
            views_of(pieces@).push(s@.subrange(start as int, i as int)) == split_commas(
                s@.take(i as int),
            ),
        decreases n - i,
    {
        let c = s.get_char(i);
        let ghost prev = split_commas(s@.take(i as int));
        let ghost old_views = views_of(pieces@);
        assert(s@.take(i + 1).drop_last() =~= s@.take(i as int));
        assert(s@.take(i + 1).last() == c);
        if c == ',' {
            let piece = s.substring_char(start, i);
            pieces.push(String::from_str(piece));
            assert(views_of(pieces@) =~= old_views.push(s@.subrange(start as int, i as int)));
            assert(s@.subrange(i + 1, i + 1) =~= Seq::<char>::empty());
            assert(views_of(pieces@).push(s@.subrange(i + 1, i + 1)) =~= prev.push(Seq::empty()));
            start = i + 1;
        } else {
            assert(s@.subrange(start as int, i + 1) =~= s@.subrange(start as int, i as int).push(c));
            assert(views_of(pieces@).push(s@.subrange(start as int, i + 1)) =~= prev.update(
                prev.len() - 1,
                prev.last().push(c),
            ));
        }
        i = i + 1;
    }
    let piece = s.substring_char(start, n);
    pieces.push(String::from_str(piece));
    assert(s@.take(n as int) =~= s@);
    assert(views_of(pieces@) =~= split_commas(s@));
    pieces
}

/// Splitting at commas undoes joining with commas, where there is at least
/// one piece and no piece holds a comma.
pub proof fn lemma_split_join(s: Seq<Seq<char>>)
    requires
        s.len() >= 1,
        forall|i: int, k: int| 0 <= i < s.len() && 0 <= k < s[i].len() ==> #[trigger] s[i][k] != ',',
    ensures
        split_commas(join_commas(s)) == s,
    decreases s.len(),
{
    if s.len() == 1 {
        lemma_split_no_comma(s[0]);
        assert(seq![s[0]] =~= s);
    } else {
        let init = s.drop_last();
        lemma_split_join(init);
        lemma_split_after_comma(join_commas(init), s.last());
        assert(init.push(s.last()) =~= s);
    }
}

proof fn lemma_split_no_comma(x: Seq<char>)
    requires
        forall|k: int| 0 <= k < x.len() ==> x[k] != ',',
    ensures
        split_commas(x) == seq![x],
    decreases x.len(),
{
    if x.len() == 0 {
        assert(x =~= Seq::<char>::empty());
    } else {
        lemma_split_no_comma(x.drop_last());
        assert(x.drop_last().push(x.last()) =~= x);
        assert(seq![x.drop_last()].update(0, x) =~= seq![x]);
    }
}

proof fn lemma_split_after_comma(a: Seq<char>, b: Seq<char>)
    requires
        forall|k: int| 0 <= k < b.len() ==> b[k] != ',',
    ensures
        split_commas(a + seq![','] + b) == split_commas(a).push(b),
    decreases b.len(),
{
    let s = a + seq![','] + b;
    if b.len() == 0 {
        assert(s.drop_last() =~= a);
        assert(b =~= Seq::<char>::empty());
    } else {
        let b1 = b.drop_last();
        lemma_split_after_comma(a, b1);
        assert(s.drop_last() =~= a + seq![','] + b1);
        assert(b1.push(b.last()) =~= b);
        assert(split_commas(a).push(b1).update(split_commas(a).len() as int, b) =~= split_commas(
            a,
        ).push(b));
    }
}

/// A white-space character: one with Unicode's `White_Space` property, as
/// `char::is_whitespace` decides.
pub open spec fn is_white_space(c: char) -> bool {
    ('\u{9}' <= c && c <= '\u{d}') || c == ' ' || c == '\u{85}' || c == '\u{a0}' || c == '\u{1680}'
        || ('\u{2000}' <= c && c <= '\u{200a}') || c == '\u{2028}' || c == '\u{2029}' || c
        == '\u{202f}' || c == '\u{205f}' || c == '\u{3000}'
}

pub fn white_space(c: char) -> (r: bool)
    ensures
        r == is_white_space(c),
{
    ('\u{9}' <= c && c <= '\u{d}') || c == ' ' || c == '\u{85}' || c == '\u{a0}' || c == '\u{1680}'
        || ('\u{2000}' <= c && c <= '\u{200a}') || c == '\u{2028}' || c == '\u{2029}' || c
        == '\u{202f}' || c == '\u{205f}' || c == '\u{3000}'
}

pub open spec fn trim_start(s: Seq<char>) -> Seq<char>
    decreases s.len(),
{
    if s.len() > 0 && is_white_space(s[0]) {
        trim_start(s.drop_first())
    } else {
        s
    }
}

pub open spec fn trim_end(s: Seq<char>) -> Seq<char>
    decreases s.len(),
{
    if s.len() > 0 && is_white_space(s.last()) {
        trim_end(s.drop_last())
    } else {
        s
    }
}

/// `s` without white space at either end, as `str::trim` gives it.
pub open spec fn trim(s: Seq<char>) -> Seq<char> {
    trim_end(trim_start(s))
}

/// Removes the white space at both ends of `s`.
pub fn trimmed(s: &str) -> (r: String)
    ensures
        r@ == trim(s@),
{
    let n = s.unicode_len();
    let mut lo: usize = 0;
    assert(s@.subrange(0, n as int) =~= s@);
    while lo < n && white_space(s.get_char(lo))
        invariant
            n == s@.len(),
            lo <= n,
            trim_start(s@) == trim_start(s@.subrange(lo as int, n as int)),
        decreases n - lo,
    {
        assert(s@.subrange(lo as int, n as int).drop_first() =~= s@.subrange(lo + 1, n as int));
        lo = lo + 1;
    }
    assert(trim_start(s@) == s@.subrange(lo as int, n as int));
    let ghost front = s@.subrange(lo as int, n as int);
    let mut hi: usize = n;
    while hi > lo && white_space(s.get_char(hi - 1))
        invariant
            n == s@.len(),
            lo <= hi <= n,
            front == s@.subrange(lo as int, n as int),
            trim_end(front) == trim_end(s@.subrange(lo as int, hi as int)),
        decreases hi,
    {
        assert(s@.subrange(lo as int, hi as int).drop_last() =~= s@.subrange(lo as int, hi - 1));
        hi = hi - 1;
    }
    String::from_str(s.substring_char(lo, hi))
}


/// The decimal form of `n`, without leading zeros.
pub open spec fn decimal_text(n: u8) -> Seq<char> {
    let v = n as int;
    if v < 10 {
        seq![digit_char(v)]
    } else if v < 100 {
        seq![digit_char(v / 10), digit_char(v % 10)]
    } else {
        seq![digit_char(v / 100), digit_char(v / 10 % 10), digit_char(v % 10)]
    }
}

/// The number that a run of decimal digits writes.
pub open spec fn digits_value(s: Seq<char>) -> int
    decreases s.len(),
{
    if s.len() == 0 {
        0
    } else {
        10 * digits_value(s.drop_last()) + digit_value(s.last())
    }
}

pub open spec fn all_digits(s: Seq<char>) -> bool {
    forall|i: int| 0 <= i < s.len() ==> is_digit(#[trigger] s[i])
}

/// What `str::parse::<u8>` accepts: an optional `+`, then one or more
/// decimal digits whose value is at most 255.
pub open spec fn parse_u8(s: Seq<char>) -> Option<u8> {
    let body = if s.len() > 0 && s[0] == '+' {
        s.drop_first()
    } else {
        s
    };
    if body.len() > 0 && all_digits(body) && digits_value(body) <= 255 {
        Some(digits_value(body) as u8)
    } else {
        None
    }
}

fn digit_str(k: u8) -> (r: &'static str)
    requires
        k < 10,
    ensures
        r@ == seq![digit_char(k as int)],
{
    proof {
        reveal_strlit("0");
        reveal_strlit("1");
        reveal_strlit("2");
        reveal_strlit("3");
        reveal_strlit("4");
        reveal_strlit("5");
        reveal_strlit("6");
        reveal_strlit("7");
        reveal_strlit("8");
        reveal_strlit("9");
    }
    let r = match k {
        0 => "0",
        1 => "1",
        2 => "2",
        3 => "3",
        4 => "4",
        5 => "5",
        6 => "6",
        7 => "7",
        8 => "8",
        _ => "9",
    };
    assert(r@ =~= seq![digit_char(k as int)]);
    r
}

/// `n` in decimal, as `u8`'s `to_string` writes it.
pub fn decimal(n: u8) -> (r: String)
    ensures
        r@ == decimal_text(n),
{
    let mut r = String::new();
    if n >= 100 {
        r.append(digit_str(n / 100));
    }
    if n >= 10 {
        r.append(digit_str(n / 10 % 10));
    }
    r.append(digit_str(n % 10));
    assert(r@ =~= decimal_text(n));
    r
}

/// Reads a `u8` as `str::parse::<u8>` does.
pub fn parse_decimal_u8(s: &str) -> (r: Option<u8>)
    ensures
        r == parse_u8(s@),
{
    let n = s.unicode_len();
    let mut i: usize = 0;
    if n > 0 && s.get_char(0) == '+' {
        i = 1;
    }
    let start = i;
    let ghost body = s@.subrange(start as int, n as int);
    assert(body == if s@.len() > 0 && s@[0] == '+' { s@.drop_first() } else { s@ });
    if i == n {
        return None;
    }
    let mut acc: u32 = 0;
    while i < n
        invariant
            n == s@.len(),
            start <= i <= n,
            body == s@.subrange(start as int, n as int),
            body == if s@.len() > 0 && s@[0] == '+' { s@.drop_first() } else { s@ },
            all_digits(s@.subrange(start as int, i as int)),
            acc == if digits_value(s@.subrange(start as int, i as int)) > 255 {
                256
            } else {
                digits_value(s@.subrange(start as int, i as int))
            },
        decreases n - i,
    {
        let c = s.get_char(i);
        if !('0' <= c && c <= '9') {
            assert(body[i - start] == c);
            return None;
        }
        let d = (c as u32) - ('0' as u32);
        let ghost prefix = s@.subrange(start as int, i + 1);
        assert(prefix.drop_last() =~= s@.subrange(start as int, i as int));
        assert(digits_value(prefix) == 10 * digits_value(prefix.drop_last()) + d);
        if acc > 255 || 10 * acc + d > 255 {
            acc = 256;
        } else {
            acc = 10 * acc + d;
        }
        i = i + 1;
    }
    assert(s@.subrange(start as int, n as int) =~= body);
    if acc > 255 {
        None
    } else {
        Some(acc as u8)
    }
}

/// Reading back the decimal form of a number gives the number.
pub proof fn lemma_decimal_round_trip(n: u8)
    ensures
        parse_u8(decimal_text(n)) == Some(n),
{
    let v = n as int;
    let t = decimal_text(n);
    assert(v == 100 * (v / 100) + 10 * (v / 10 % 10) + v % 10) by (nonlinear_arith)
        requires
            0 <= v <= 255,
    ;
    assert(v == 10 * (v / 10) + v % 10) by (nonlinear_arith)
        requires
            0 <= v,
    ;
    assert(v / 100 < 10 && v / 10 % 10 < 10 && v % 10 < 10);
    assert(v < 100 ==> v / 10 < 10);
    crate::date::lemma_digit_char(v % 10);
    crate::date::lemma_digit_char(v / 10 % 10);
    if v < 100 {
        crate::date::lemma_digit_char(v / 10);
    }
    crate::date::lemma_digit_char(v / 100);
    assert(t[0] != '+');
    assert(t.len() >= 1);
    reveal_with_fuel(digits_value, 4);
    if v < 10 {
        assert(t.drop_last().len() == 0);
    } else if v < 100 {
        assert(t.drop_last() =~= seq![t[0]]);
        assert(seq![t[0]].drop_last().len() == 0);
    } else {
        assert(t.drop_last() =~= seq![t[0], t[1]]);
        assert(seq![t[0], t[1]].drop_last() =~= seq![t[0]]);
        assert(seq![t[0]].drop_last().len() == 0);
    }
}

} // verus!
