//! The order of the post list: newest first, dated posts before undated ones, ties broken by
//! title, case-insensitively.
use std::cmp::Ordering;
use vstd::prelude::*;
use crate::post::{lowercase_of, lowercased, post_views, DateKey, Post, PostView};
use crate::text::{all_ascii, ascii_lower, chars_of, is_ascii_char, str_lower, suffix, to_lowercase_str};

verus! {

/// Lexicographic order of character sequences (the order of `str::cmp`: UTF-8 encoding
/// preserves the order of code points).
pub open spec fn lex_order(a: Seq<char>, b: Seq<char>) -> Ordering
    decreases a.len(),
{
    if a.len() == 0 {
        if b.len() == 0 {
            Ordering::Equal
        } else {
            Ordering::Less
        }
    } else if b.len() == 0 {
        Ordering::Greater
    } else if a[0] < b[0] {
        Ordering::Less
    } else if a[0] > b[0] {
        Ordering::Greater
    } else {
        lex_order(a.drop_first(), b.drop_first())
    }
}

/// Order of date keys: by year, then month, then day.
pub open spec fn date_order(a: DateKey, b: DateKey) -> Ordering {
    if a.0 < b.0 {
        Ordering::Less
    } else if a.0 > b.0 {
        Ordering::Greater
    } else if a.1 < b.1 {
        Ordering::Less
    } else if a.1 > b.1 {
        Ordering::Greater
    } else if a.2 < b.2 {
        Ordering::Less
    } else if a.2 > b.2 {
        Ordering::Greater
    } else {
        Ordering::Equal
    }
}

/// Order of posts by their lowercased titles.
pub open spec fn title_order(a: PostView, b: PostView) -> Ordering {
    lex_order(str_lower(a.title), str_lower(b.title))
}

/// Order of the post list: dated posts first, newest first; ties and undated posts by
/// lowercased title.
pub open spec fn post_order(a: PostView, b: PostView) -> Ordering {
    match (a.date_key, b.date_key) {
        (Some(x), Some(y)) => match date_order(y, x) {
            Ordering::Equal => title_order(a, b),
            o => o,
        },
        (Some(_), None) => Ordering::Less,
        (None, Some(_)) => Ordering::Greater,
        (None, None) => title_order(a, b),
    }
}

fn lex_compare(a: &[char], b: &[char]) -> (r: Ordering)
    ensures
        r == lex_order(a@, b@),
{
    let n = a.len();
    let m = b.len();
    let mut i: usize = 0;
    assert(suffix(a@, 0) == a@ && suffix(b@, 0) == b@);
    while i < n && i < m
        invariant
            n == a@.len(),
            m == b@.len(),
            i <= n,
            i <= m,
            lex_order(a@, b@) == lex_order(suffix(a@, i), suffix(b@, i)),
        decreases n - i,
    {
        assert(suffix(a@, i).drop_first() == a@.skip(i + 1));
        assert(suffix(b@, i).drop_first() == b@.skip(i + 1));
        if a[i] < b[i] {
            return Ordering::Less;
        }
        if a[i] > b[i] {
            return Ordering::Greater;
        }
        i = i + 1;
    }
    if i < m {
        Ordering::Less
    } else if i < n {
        Ordering::Greater
    } else {
        Ordering::Equal
    }
}

fn date_compare(a: DateKey, b: DateKey) -> (r: Ordering)
    ensures
        r == date_order(a, b),
{
    if a.0 < b.0 {
        Ordering::Less
    } else if a.0 > b.0 {
        Ordering::Greater
    } else if a.1 < b.1 {
        Ordering::Less
    } else if a.1 > b.1 {
        Ordering::Greater
    } else if a.2 < b.2 {
        Ordering::Less
    } else if a.2 > b.2 {
        Ordering::Greater
    } else {
        Ordering::Equal
    }
}

/// Compares two posts by their titles, case-insensitively.
pub fn compare_titles(a: &Post, b: &Post) -> (r: Ordering)
    ensures
        r == title_order(a@, b@),
{
    let la = to_lowercase_str(a.title.as_str());
    let lb = to_lowercase_str(b.title.as_str());
    let ca = chars_of(la.as_str());
    let cb = chars_of(lb.as_str());
    lex_compare(ca.as_slice(), cb.as_slice())
}

/// The order of the post list: dated posts first, newest first; ties and undated posts by
/// title, case-insensitively.
pub fn compare_posts(a: &Post, b: &Post) -> (r: Ordering)
    ensures
        r == post_order(a@, b@),
{
    match (a.date_key, b.date_key) {
        (Some(x), Some(y)) => match date_compare(y, x) {
            Ordering::Equal => compare_titles(a, b),
            o => o,
        },
        (Some(_), None) => Ordering::Less,
        (None, Some(_)) => Ordering::Greater,
        (None, None) => compare_titles(a, b),
    }
}

/// `a` sorts strictly after `b` in the post list.
pub open spec fn post_after(a: PostView, b: PostView) -> bool {
    post_order(a, b) == Ordering::Greater
}

/// `sorted` with `p` inserted after every element that does not sort after it.
pub open spec fn insert_sorted(sorted: Seq<PostView>, p: PostView) -> Seq<PostView>
    decreases sorted.len(),
{
    if sorted.len() == 0 {
        seq![p]
    } else if post_after(sorted.last(), p) {
        insert_sorted(sorted.drop_last(), p).push(sorted.last())
    } else {
        sorted.push(p)
    }
}

/// The posts in list order, equal posts keeping their relative order (a stable sort).
pub open spec fn sorted_posts(s: Seq<PostView>) -> Seq<PostView>
    decreases s.len(),
{
    if s.len() == 0 {
        seq![]
    } else {
        insert_sorted(sorted_posts(s.drop_last()), s.last())
    }
}

fn sorts_after(a: &Post, b: &Post) -> (r: bool)
    ensures
        r == post_after(a@, b@),
{
    match compare_posts(a, b) {
        Ordering::Greater => true,
        _ => false,
    }
}

/// Sorts the posts into list order, stably.
pub fn sort_posts(posts: &mut Vec<Post>)
    ensures
        post_views(final(posts)@) == sorted_posts(post_views(old(posts)@)),
{
    let n = posts.len();
    let ghost orig = posts@;
    for i in 0..n
        invariant
            n == orig.len(),
            posts@.len() == n,
            orig == old(posts)@,
            post_views(posts@.take(i as int)) == sorted_posts(post_views(orig.take(i as int))),
            posts@.skip(i as int) == orig.skip(i as int),
    {
        let ghost pre = posts@;
        let ghost sorted = post_views(pre.take(i as int));
        assert(pre[i as int] == orig.skip(i as int)[0]);
        let p = posts.remove(i);
        assert(posts@ == pre.take(i as int) + pre.skip(i + 1));
        assert(post_views(posts@.take(i as int)) == sorted) by {
            assert(posts@.take(i as int) =~= pre.take(i as int));
        }
        let mut j = i;
        assert(sorted.take(i as int) =~= sorted);
        assert(sorted.skip(i as int) =~= Seq::<PostView>::empty());
        while j > 0 && sorts_after(&posts[j - 1], &p)
            invariant
                j <= i,
                i < n,
                pre.len() == n,
                n == orig.len(),
                pre.skip(i as int) == orig.skip(i as int),
                posts@ == pre.take(i as int) + pre.skip(i + 1),
                posts@.len() == n - 1,
                sorted == post_views(pre.take(i as int)),
                sorted.len() == i,
                p == pre[i as int],
                insert_sorted(sorted, p@) == insert_sorted(sorted.take(j as int), p@) + sorted.skip(
                    j as int,
                ),
            decreases j,
        {
            proof {
                let t = sorted.take(j as int);
                assert(posts@[j - 1] == pre[j - 1]);
                assert(t.last() == sorted[j - 1]);
                assert(t.drop_last() == sorted.take(j - 1));
                assert(sorted.skip(j - 1) == seq![sorted[j - 1]] + sorted.skip(j as int));
            }
            j = j - 1;
        }
        proof {
            if j > 0 {
                assert(posts@[j - 1] == pre[j - 1]);
                assert(sorted.take(j as int).last() == sorted[j - 1]);
            }
            assert(insert_sorted(sorted.take(j as int), p@) == sorted.take(j as int).push(p@));
        }
        posts.insert(j, p);
        proof {
            assert(post_views(posts@.take(i + 1)) =~= insert_sorted(sorted, p@));
            assert(orig.take(i + 1).drop_last() =~= orig.take(i as int));
            assert(post_views(orig.take(i + 1)).drop_last() =~= post_views(orig.take(i as int)));
            assert(pre.skip(i + 1) =~= orig.skip(i + 1)) by {
                assert forall|k: int| 0 <= k < n - i - 1 implies #[trigger] pre.skip(i + 1)[k]
                    == orig.skip(i + 1)[k] by {
                    assert(pre.skip(i as int)[k + 1] == orig.skip(i as int)[k + 1]);
                }
            }
            assert(posts@.skip(i + 1) =~= pre.skip(i + 1));
        }
    }
    assert(posts@.take(n as int) == posts@);
    assert(orig.take(n as int) == orig);
}


proof fn lemma_lex_antisymmetric(a: Seq<char>, b: Seq<char>)
    ensures
        (lex_order(a, b) == Ordering::Less) == (lex_order(b, a) == Ordering::Greater),
        (lex_order(a, b) == Ordering::Equal) == (a == b),
    decreases a.len(),
{
    if a.len() > 0 && b.len() > 0 && a[0] == b[0] {
        lemma_lex_antisymmetric(a.drop_first(), b.drop_first());
        if a.drop_first() == b.drop_first() {
            assert(a == seq![a[0]] + a.drop_first());
            assert(b == seq![b[0]] + b.drop_first());
        }
    }
    if a.len() == 0 && b.len() == 0 {
        assert(a == b);
    }
}

proof fn lemma_lex_transitive(a: Seq<char>, b: Seq<char>, c: Seq<char>)
    requires
        lex_order(a, b) != Ordering::Greater,
        lex_order(b, c) != Ordering::Greater,
    ensures
        lex_order(a, c) != Ordering::Greater,
    decreases a.len(),
{
    if a.len() > 0 && b.len() > 0 && c.len() > 0 && a[0] == b[0] && b[0] == c[0] {
        lemma_lex_transitive(a.drop_first(), b.drop_first(), c.drop_first());
    }
}

proof fn lemma_post_order_antisymmetric(a: PostView, b: PostView)
    ensures
        post_after(a, b) ==> post_order(b, a) == Ordering::Less,
        post_order(a, b) == Ordering::Less ==> post_after(b, a),
{
    lemma_lex_antisymmetric(str_lower(a.title), str_lower(b.title));
    lemma_lex_antisymmetric(str_lower(b.title), str_lower(a.title));
}

proof fn lemma_post_order_transitive(a: PostView, b: PostView, c: PostView)
    requires
        !post_after(a, b),
        !post_after(b, c),
    ensures
        !post_after(a, c),
{
    let (ta, tb, tc) = (str_lower(a.title), str_lower(b.title), str_lower(c.title));
    lemma_lex_antisymmetric(ta, tb);
    lemma_lex_antisymmetric(tb, tc);
    lemma_lex_antisymmetric(ta, tc);
    if lex_order(ta, tb) != Ordering::Greater && lex_order(tb, tc) != Ordering::Greater {
        lemma_lex_transitive(ta, tb, tc);
    }
}

/// Every post before another in `s` does not sort after it.
pub open spec fn in_list_order(s: Seq<PostView>) -> bool {
    forall|i: int, j: int| 0 <= i < j < s.len() ==> !post_after(#[trigger] s[i], #[trigger] s[j])
}

proof fn lemma_insert_sorted(s: Seq<PostView>, p: PostView)
    ensures
        insert_sorted(s, p).to_multiset() == s.to_multiset().insert(p),
        in_list_order(s) ==> in_list_order(insert_sorted(s, p)),
    decreases s.len(),
{
    broadcast use vstd::seq_lib::group_to_multiset_ensures;

    if s.len() == 0 {
        assert(seq![p] == Seq::<PostView>::empty().push(p));
    } else if post_after(s.last(), p) {
        let t = s.drop_last();
        lemma_insert_sorted(t, p);
        let r = insert_sorted(t, p);
        assert(s == t.push(s.last()));
        if in_list_order(s) {
            lemma_post_order_antisymmetric(s.last(), p);
            assert forall|i: int, j: int| 0 <= i < j < r.len() + 1 implies !post_after(
                #[trigger] r.push(s.last())[i],
                #[trigger] r.push(s.last())[j],
            ) by {
                if j == r.len() {
                    let x = r[i];
                    assert(r.to_multiset().count(x) > 0);
                    assert(r.contains(x));
                    if x != p {
                        assert(t.to_multiset().count(x) > 0);
                        assert(t.contains(x));
                        let k = choose|k: int| 0 <= k < t.len() && t[k] == x;
                        assert(s[k] == x);
                        assert(!post_after(s[k], s[s.len() - 1]));
                    }
                }
            }
        }
    } else {
        if in_list_order(s) {
            assert forall|i: int, j: int| 0 <= i < j < s.len() + 1 implies !post_after(
                #[trigger] s.push(p)[i],
                #[trigger] s.push(p)[j],
            ) by {
                if j == s.len() {
                    if i < s.len() - 1 {
                        assert(!post_after(s[i], s[s.len() - 1]));
                        lemma_post_order_transitive(s[i], s.last(), p);
                    }
                }
            }
        }
    }
}

/// The post list is in list order: no post sorts after one listed later.
pub proof fn lemma_sorted_posts_in_order(s: Seq<PostView>)
    ensures
        in_list_order(sorted_posts(s)),
    decreases s.len(),
{
    if s.len() > 0 {
        lemma_sorted_posts_in_order(s.drop_last());
        lemma_insert_sorted(sorted_posts(s.drop_last()), s.last());
    }
}

/// Sorting the post list neither drops nor adds nor duplicates a post.
pub proof fn lemma_sorted_posts_permutation(s: Seq<PostView>)
    ensures
        sorted_posts(s).to_multiset() == s.to_multiset(),
    decreases s.len(),
{
    broadcast use vstd::seq_lib::group_to_multiset_ensures;

    if s.len() > 0 {
        lemma_sorted_posts_permutation(s.drop_last());
        lemma_insert_sorted(sorted_posts(s.drop_last()), s.last());
        assert(s == s.drop_last().push(s.last()));
    }
}

/// Two posts that sort to the same place: same date key, same lowercased title.
pub open spec fn same_place(a: PostView, b: PostView) -> bool {
    a.date_key == b.date_key && str_lower(a.title) == str_lower(b.title)
}

/// Whether a post sorts to the same place as `p`.
pub open spec fn at_place(p: PostView) -> spec_fn(PostView) -> bool {
    |x: PostView| same_place(x, p)
}

proof fn lemma_same_place_equal(a: PostView, q: PostView, p: PostView)
    requires
        same_place(a, p),
        same_place(q, p),
    ensures
        post_order(a, q) == Ordering::Equal,
{
    lemma_lex_antisymmetric(str_lower(a.title), str_lower(q.title));
}

proof fn lemma_insert_sorted_stable(r: Seq<PostView>, q: PostView, p: PostView)
    ensures
        insert_sorted(r, q).filter(at_place(p)) == if same_place(q, p) {
            r.filter(at_place(p)).push(q)
        } else {
            r.filter(at_place(p))
        },
    decreases r.len(),
{
    reveal(Seq::filter);
    let f = at_place(p);
    if r.len() == 0 {
        assert(seq![q].drop_last() =~= Seq::<PostView>::empty());
        assert(seq![q].last() == q);
        assert(r.filter(f) =~= Seq::<PostView>::empty());
        assert(Seq::<PostView>::empty().filter(f) =~= Seq::<PostView>::empty());
        assert(insert_sorted(r, q) == seq![q]);
        assert(Seq::<PostView>::empty().push(q) =~= seq![q]);
    } else if post_after(r.last(), q) {
        lemma_insert_sorted_stable(r.drop_last(), q, p);
        let m = insert_sorted(r.drop_last(), q);
        assert(insert_sorted(r, q) == m.push(r.last()));
        assert(m.push(r.last()).drop_last() == m);
        assert(m.push(r.last()).last() == r.last());
        if same_place(q, p) && same_place(r.last(), p) {
            lemma_same_place_equal(r.last(), q, p);
        }
        if f(r.last()) {
            assert(r.filter(f) == r.drop_last().filter(f).push(r.last()));
        } else {
            assert(r.filter(f) == r.drop_last().filter(f));
        }
    } else {
        assert(insert_sorted(r, q) == r.push(q));
        assert(r.push(q).drop_last() == r);
        assert(r.push(q).last() == q);
    }
}

/// Sorting is stable: posts that sort to the same place keep their order.
pub proof fn lemma_sorted_posts_stable(s: Seq<PostView>, p: PostView)
    ensures
        sorted_posts(s).filter(at_place(p)) == s.filter(
            at_place(p),
        ),
    decreases s.len(),
{
    reveal(Seq::filter);
    if s.len() > 0 {
        lemma_sorted_posts_stable(s.drop_last(), p);
        lemma_insert_sorted_stable(sorted_posts(s.drop_last()), s.last(), p);
    }
}

/// In the post list every dated post comes before every undated one, and of two posts with
/// different dates the newer comes first.
pub proof fn lemma_sorted_posts_newest_first(s: Seq<PostView>, i: int, j: int)
    requires
        0 <= i < j < sorted_posts(s).len(),
    ensures
        sorted_posts(s)[j].date_key is Some ==> sorted_posts(s)[i].date_key is Some,
        sorted_posts(s)[i].date_key is Some && sorted_posts(s)[j].date_key is Some ==> date_order(
            sorted_posts(s)[i].date_key.unwrap(),
            sorted_posts(s)[j].date_key.unwrap(),
        ) != Ordering::Less,
{
    lemma_sorted_posts_in_order(s);
    let r = sorted_posts(s);
    assert(!post_after(r[i], r[j]));
}

/// The post order is a total preorder, as `sort_by` needs. Swapping the two posts reverses
/// the comparison.
pub proof fn lemma_post_order_swap(a: PostView, b: PostView)
    ensures
        (post_order(a, b) == Ordering::Less) == (post_order(b, a) == Ordering::Greater),
        (post_order(a, b) == Ordering::Equal) == (post_order(b, a) == Ordering::Equal),
        (post_order(a, b) == Ordering::Greater) == (post_order(b, a) == Ordering::Less),
{
    lemma_lex_antisymmetric(str_lower(a.title), str_lower(b.title));
    lemma_lex_antisymmetric(str_lower(b.title), str_lower(a.title));
}

/// The post order is transitive: if `a` does not sort after `b` nor `b` after `c`, then `a`
/// does not sort after `c`; and if `a` sorts before `b` and `b` before `c`, then `a` sorts
/// before `c`.
pub proof fn lemma_post_order_transitive_laws(a: PostView, b: PostView, c: PostView)
    ensures
        post_order(a, b) != Ordering::Greater && post_order(b, c) != Ordering::Greater
            ==> post_order(a, c) != Ordering::Greater,
        post_order(a, b) == Ordering::Less && post_order(b, c) == Ordering::Less
            ==> post_order(a, c) == Ordering::Less,
{
    if post_order(a, b) != Ordering::Greater && post_order(b, c) != Ordering::Greater {
        lemma_post_order_transitive(a, b, c);
    }
    if post_order(a, b) == Ordering::Less && post_order(b, c) == Ordering::Less {
        lemma_post_order_transitive(a, b, c);
        lemma_post_order_swap(a, c);
        lemma_post_order_swap(a, b);
        lemma_post_order_swap(b, c);
        if post_order(a, c) == Ordering::Equal {
            // then `c` sorts no later than `a`, hence no later than `b`: against `b` before `c`
            lemma_post_order_transitive(c, a, b);
        }
    }
}

/// Two posts compare `Equal` exactly when they sort to the same place: the same date key and
/// the same lowercased title.
pub proof fn lemma_post_order_equal(a: PostView, b: PostView)
    ensures
        (post_order(a, b) == Ordering::Equal) == same_place(a, b),
{
    lemma_lex_antisymmetric(str_lower(a.title), str_lower(b.title));
    match (a.date_key, b.date_key) {
        (Some(x), Some(y)) => {
            if date_order(y, x) == Ordering::Equal {
                assert(x == y);
            }
        },
        _ => {},
    }
}

/// A number that grows with the date of a key: years count most, then months, then days.
pub open spec fn date_rank(k: DateKey) -> int {
    k.0 as int * 65536 + k.1 as int * 256 + k.2 as int
}

/// Of two dated posts the one with the later date sorts first, whatever the days of
/// different months or the months of different years; posts of the same date go by title.
pub proof fn lemma_later_date_first(a: PostView, b: PostView)
    requires
        a.date_key is Some,
        b.date_key is Some,
    ensures
        date_rank(a.date_key.unwrap()) > date_rank(b.date_key.unwrap()) ==> post_order(a, b)
            == Ordering::Less,
        date_rank(a.date_key.unwrap()) < date_rank(b.date_key.unwrap()) ==> post_order(a, b)
            == Ordering::Greater,
        date_rank(a.date_key.unwrap()) == date_rank(b.date_key.unwrap()) ==> post_order(a, b)
            == title_order(a, b),
{
    let x = a.date_key.unwrap();
    let y = b.date_key.unwrap();
    assert(date_rank(x) > date_rank(y) <==> (x.0 > y.0 || (x.0 == y.0 && (x.1 > y.1 || (x.1
        == y.1 && x.2 > y.2)))));
    assert(date_rank(x) == date_rank(y) <==> (x.0 == y.0 && x.1 == y.1 && x.2 == y.2));
}

proof fn lemma_lex_first_difference(a: Seq<char>, b: Seq<char>, i: int)
    requires
        0 <= i <= a.len(),
        i <= b.len(),
        a.take(i) == b.take(i),
        (i < a.len() && i < b.len() && a[i] < b[i]) || (i == a.len() && i < b.len()),
    ensures
        lex_order(a, b) == Ordering::Less,
    decreases i,
{
    if i > 0 {
        assert(a[0] == a.take(i)[0] && b[0] == b.take(i)[0]);
        assert(a.drop_first().take(i - 1) == a.take(i).drop_first());
        assert(b.drop_first().take(i - 1) == b.take(i).drop_first());
        lemma_lex_first_difference(a.drop_first(), b.drop_first(), i - 1);
    }
}

proof fn lemma_ascii_lowered(s: Seq<char>)
    requires
        all_ascii(s),
    ensures
        str_lower(s) == lowercased(s),
    decreases s.len(),
{
    if s.len() > 0 {
        let t = s.drop_first();
        assert(all_ascii(t)) by {
            assert forall|i: int| 0 <= i < t.len() implies is_ascii_char(#[trigger] t[i]) by {
                assert(t[i] == s[i + 1]);
            }
        }
        lemma_ascii_lowered(t);
        assert(is_ascii_char(s[0]));
        assert(lowercase_of(s[0]) == seq![ascii_lower(s[0])]);
        assert(s.map_values(|c: char| ascii_lower(c)) =~= seq![ascii_lower(s[0])] + t.map_values(
            |c: char| ascii_lower(c),
        ));
    } else {
        assert(s.map_values(|c: char| ascii_lower(c)) =~= Seq::<char>::empty());
    }
}

/// Posts that tie on date go alphabetically by title, ignoring case: for ASCII titles,
/// lowercased (`A`-`Z` as `a`-`z`), the title whose first differing character is smaller, or
/// that is a proper prefix of the other, comes first; titles equal but for case tie.
pub proof fn lemma_titles_alphabetical(a: PostView, b: PostView, i: int)
    requires
        all_ascii(a.title),
        all_ascii(b.title),
    ensures
        ({
            let (la, lb) = (lowercased(a.title), lowercased(b.title));
            0 <= i <= la.len() && i <= lb.len() && la.take(i) == lb.take(i) && ((i < la.len() && i
                < lb.len() && la[i] < lb[i]) || (i == la.len() && i < lb.len()))
        }) ==> title_order(a, b) == Ordering::Less,
        lowercased(a.title) == lowercased(b.title) ==> title_order(a, b) == Ordering::Equal,
{
    lemma_ascii_lowered(a.title);
    lemma_ascii_lowered(b.title);
    let (la, lb) = (lowercased(a.title), lowercased(b.title));
    if 0 <= i <= la.len() && i <= lb.len() && la.take(i) == lb.take(i) && ((i < la.len() && i
        < lb.len() && la[i] < lb[i]) || (i == la.len() && i < lb.len())) {
        lemma_lex_first_difference(la, lb, i);
    }
    lemma_lex_antisymmetric(la, lb);
}

} // verus!
