//! What an insertion into a text does to what is found in it.

use vstd::prelude::*;

use crate::text::{find, is_space, lemma_find, match_at, skip_space, starts_with, trim_start};

verus! {

/// `s` with `t` put in at `at`.
pub open spec fn inserted(s: Seq<char>, at: int, t: Seq<char>) -> Seq<char> {
    s.subrange(0, at) + t + s.subrange(at, s.len() as int)
}

/// Where the position `k` comes to lie once `n` characters are put in at `at`.
pub open spec fn moved(k: int, at: int, n: nat) -> int {
    if k < at {
        k
    } else {
        k + n
    }
}

/// A text that is found before `n` is found in every other text that agrees up to `n`.
pub proof fn lemma_find_prefix(s: Seq<char>, t: Seq<char>, p: Seq<char>, i: int, n: int)
    requires
        0 <= i,
        n <= s.len(),
        n <= t.len(),
        s.subrange(0, n) == t.subrange(0, n),
        find(s, p, i) is Some,
        find(s, p, i)->0 + p.len() <= n,
    ensures
        find(t, p, i) == find(s, p, i),
{
    let k = find(s, p, i)->0;
    lemma_find(s, p, i);
    lemma_find(t, p, i);
    assert forall|j: int| i <= j <= k implies match_at(s, j, p) == match_at(t, j, p) by {
        let a = s.subrange(j, j + p.len());
        let b = t.subrange(j, j + p.len());
        assert forall|x: int| 0 <= x < p.len() implies a[x] == b[x] by {
            assert(0 <= j + x < n);
            assert(s.subrange(0, n)[j + x] == s[j + x]);
            assert(t.subrange(0, n)[j + x] == t[j + x]);
        }
        assert(a =~= b);
    }
    assert(match_at(t, k, p));
    let k2 = find(t, p, i)->0;
    if k2 < k {
        assert(match_at(s, k2, p));
    }
    if k < k2 {
        assert(!match_at(t, k, p));
    }
}

/// The text `p` does not lie across `at` in `s`, nor, once `t` is put in there, across an end of
/// it or in it.
pub open spec fn keeps_off(p: Seq<char>, s: Seq<char>, at: int, t: Seq<char>) -> bool {
    &&& 0 < at <= s.len()
    &&& t.len() > 0
    &&& p.len() > 0
    &&& forall|j: int| #[trigger] match_at(s, j, p) ==> j + p.len() <= at || at <= j
    &&& forall|x: int| 0 <= x < p.len() ==> #[trigger] p[x] != t[t.len() - 1]
    &&& forall|y: int| 0 <= y < t.len() ==> #[trigger] t[y] != p[p.len() - 1]
}

/// A match in the text before is one in the text after.
proof fn lemma_match_moves(s: Seq<char>, at: int, t: Seq<char>, p: Seq<char>, j: int)
    requires
        keeps_off(p, s, at, t),
        match_at(s, j, p),
    ensures
        match_at(inserted(s, at, t), moved(j, at, t.len()), p),
{
    let u = inserted(s, at, t);
    let k = moved(j, at, t.len());
    assert forall|x: int| 0 <= x < p.len() implies u.subrange(k, k + p.len())[x] == p[x] by {
        assert(s.subrange(j, j + p.len())[x] == s[j + x]);
    }
    assert(u.subrange(k, k + p.len()) =~= p);
}

/// A match in the text after is one in the text before.
proof fn lemma_match_stays(s: Seq<char>, at: int, t: Seq<char>, p: Seq<char>, k: int)
    requires
        keeps_off(p, s, at, t),
        match_at(inserted(s, at, t), k, p),
    ensures
        k + p.len() <= at || at + t.len() <= k,
        match_at(
            s,
            if k < at {
                k
            } else {
                k - t.len()
            },
            p,
        ),
{
    let u = inserted(s, at, t);
    let n = t.len() as int;
    let w = u.subrange(k, k + p.len());
    if k < at + n && at < k + p.len() {
        let last = p.len() - 1;
        if k + p.len() >= at + n {
            assert(w[at + n - 1 - k] == t[n - 1]);
            assert(p[at + n - 1 - k] == t[n - 1]);
        } else {
            assert(w[last] == t[k + last - at]);
            assert(p[last] == t[k + last - at]);
        }
    }
    let j = if k < at {
        k
    } else {
        k - n
    };
    assert(s.subrange(j, j + p.len()) =~= w);
}

/// What is found moves with the text that it stands in; nothing else comes to be found.
pub proof fn lemma_find_inserted(s: Seq<char>, at: int, t: Seq<char>, p: Seq<char>, i: int)
    requires
        keeps_off(p, s, at, t),
        0 <= i,
    ensures
        match find(s, p, i) {
            Some(k) => find(inserted(s, at, t), p, moved(i, at, t.len())) == Some(
                moved(k, at, t.len()),
            ) && (k + p.len() <= at || at <= k),
            None => find(inserted(s, at, t), p, moved(i, at, t.len())) is None,
        },
{
    let u = inserted(s, at, t);
    let n = t.len();
    let m = moved(i, at, n);
    lemma_find(s, p, i);
    lemma_find(u, p, m);
    match find(u, p, m) {
        Some(k) => {
            lemma_match_stays(s, at, t, p, k);
            let j = if k < at {
                k
            } else {
                k - n
            };
            assert(i <= j);
            assert(find(s, p, i) is Some);
            let j0 = find(s, p, i)->0;
            lemma_match_moves(s, at, t, p, j0);
            assert(j0 <= j);
            assert(m <= moved(j0, at, n));
            if j0 < j {
                assert(moved(j0, at, n) < k);
            }
        },
        None => {
            if find(s, p, i) is Some {
                let j0 = find(s, p, i)->0;
                lemma_match_moves(s, at, t, p, j0);
                assert(m <= moved(j0, at, n));
            }
        },
    }
}

/// White space at the start ends where it did in a text that agrees up to there.
pub proof fn lemma_skip_same(s: Seq<char>, t: Seq<char>, i: int)
    requires
        0 <= i,
        skip_space(s, i) < s.len(),
        skip_space(s, i) < t.len(),
        forall|x: int| i <= x <= skip_space(s, i) ==> s[x] == #[trigger] t[x],
    ensures
        skip_space(t, i) == skip_space(s, i),
        i <= skip_space(s, i),
        forall|x: int| i <= x < skip_space(s, i) ==> is_space(#[trigger] s[x]),
        !is_space(s[skip_space(s, i)]),
    decreases s.len() - i,
{
    if i < s.len() && is_space(s[i]) {
        lemma_skip_grows(s, i + 1);
        assert(t[i] == s[i]);
        lemma_skip_same(s, t, i + 1);
    } else {
        assert(s[i] == t[i]);
    }
}

pub proof fn lemma_skip_grows(s: Seq<char>, i: int)
    requires
        0 <= i,
    ensures
        i <= skip_space(s, i),
        i <= s.len() ==> skip_space(s, i) <= s.len(),
    decreases s.len() - i,
{
    if i < s.len() && is_space(s[i]) {
        lemma_skip_grows(s, i + 1);
    }
}

/// What a text begins with, white space aside, it begins with still if something is put in behind
/// a character that is neither white space nor part of it.
pub proof fn lemma_begins_still(s: Seq<char>, at: int, t: Seq<char>, h: Seq<char>)
    requires
        0 < at <= s.len(),
        !is_space(s[at - 1]),
        h.len() > 0,
        forall|x: int| 0 <= x < h.len() ==> #[trigger] h[x] != s[at - 1],
        starts_with(trim_start(s), h),
    ensures
        starts_with(trim_start(inserted(s, at, t)), h),
{
    let u = inserted(s, at, t);
    let k = skip_space(s, 0);
    lemma_skip_grows(s, 0);
    let rest = s.subrange(k, s.len() as int);
    assert(k < s.len());
    lemma_skip_same(s, s, 0);
    assert(k <= at - 1);
    assert(k + h.len() <= at - 1) by {
        if at - 1 < k + h.len() {
            assert(rest.subrange(0, h.len() as int)[at - 1 - k] == s[at - 1]);
            assert(h[at - 1 - k] == s[at - 1]);
        }
    }
    assert forall|x: int| 0 <= x <= k implies s[x] == #[trigger] u[x] by {}
    lemma_skip_same(s, u, 0);
    let urest = u.subrange(k, u.len() as int);
    assert(urest.subrange(0, h.len() as int) =~= rest.subrange(0, h.len() as int));
}

/// A text begins with what was put in at its start, if that is no white space.
pub proof fn lemma_begins_with(t: Seq<char>, rest: Seq<char>, h: Seq<char>)
    requires
        h.len() > 0,
        h.len() <= t.len(),
        t.subrange(0, h.len() as int) == h,
        !is_space(h[0]),
    ensures
        starts_with(trim_start(t + rest), h),
{
    let u = t + rest;
    assert(t.subrange(0, h.len() as int)[0] == t[0]);
    assert(u[0] == h[0]);
    assert(skip_space(u, 0) == 0);
    assert(u.subrange(0, u.len() as int).subrange(0, h.len() as int) =~= h);
}

} // verus!
