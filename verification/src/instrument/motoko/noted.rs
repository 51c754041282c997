//! When a place in a Motoko body counts as noted or recorded, and where a note
//! goes.

use vstd::prelude::*;
use vstd::string::*;

use crate::instrument::motoko::boot::stands;
use crate::instrument::motoko::actor::{actor_of, ActorView};
use crate::instrument::motoko::body::{
    entry_place, has_entry_note, lines_below, snapshot_near, statement_end, StatementEnd,
};
use crate::instrument::motoko::funcs::{after_semis, func_view, Names, Shape};
use crate::instrument::motoko::rules::{blanks_start, lead_of};
use crate::instrument::motoko::scan::{
    code_end, find_name, find_word, lemma_find_name, mask, matching, name_match, word_at,
};
use crate::text::{
    find, find_char, is_space, law_trim, lemma_find, lemma_line_end, lemma_line_start, line_end,
    line_start, match_at, quoted, skip_space,
};

verus! {

// ---------- Lines ----------

/// How many line feeds stand from `i` up to `j`.
pub open spec fn feeds_between(s: Seq<char>, i: int, j: int) -> int
    decreases j - i,
{
    if j <= i {
        0
    } else {
        feeds_between(s, i, j - 1) + if s[j - 1] == '\n' {
            1int
        } else {
            0
        }
    }
}

proof fn lemma_no_feeds(s: Seq<char>, i: int, j: int)
    requires
        i <= j,
        forall|k: int| i <= k < j ==> #[trigger] s[k] != '\n',
    ensures
        feeds_between(s, i, j) == 0,
    decreases j - i,
{
    if i < j {
        assert(s[j - 1] != '\n');
        lemma_no_feeds(s, i, j - 1);
    }
}

proof fn lemma_feeds_add(s: Seq<char>, i: int, j: int, k: int)
    requires
        i <= j <= k,
    ensures
        feeds_between(s, i, k) == feeds_between(s, i, j) + feeds_between(s, j, k),
    decreases k - j,
{
    if j < k {
        lemma_feeds_add(s, i, j, k - 1);
    }
}

proof fn lemma_feeds_low(s: Seq<char>, i: int, j: int)
    ensures
        feeds_between(s, i, j) >= 0,
    decreases j - i,
{
    if i < j {
        lemma_feeds_low(s, i, j - 1);
    }
}

/// The end of the `n`th line below is the line feed with `n` others between, or the end of the text
/// where there are no more.
pub proof fn law_lines_below(s: Seq<char>, i: int, n: nat)
    requires
        0 <= i <= s.len(),
    ensures
        i <= lines_below(s, i, n) <= s.len(),
        feeds_between(s, i, lines_below(s, i, n)) <= n,
        lines_below(s, i, n) < s.len() ==> s[lines_below(s, i, n)] == '\n' && feeds_between(
            s,
            i,
            lines_below(s, i, n),
        ) == n,
    decreases n,
{
    lemma_line_end(s, i);
    let e = line_end(s, i);
    lemma_no_feeds(s, i, e);
    if n > 0 && e < s.len() {
        law_lines_below(s, e + 1, (n - 1) as nat);
        let r = lines_below(s, i, n);
        lemma_feeds_add(s, i, e + 1, r);
    }
}

/// A record of state counts as taken where `snapshotText` or `snapshotBlob` stands in the rest of
/// the line or in the five lines below it, and only there.
pub proof fn law_record_is_near(s: Seq<char>, i: int)
    requires
        0 <= i <= s.len(),
    ensures
        snapshot_near(s, i) <==> exists|k: int|
            i <= k && k + 12 <= lines_below(s, i, 5) && (#[trigger] s.subrange(k, k + 12)
                == "snapshotText"@ || s.subrange(k, k + 12) == "snapshotBlob"@),
{
    reveal_strlit("snapshotText");
    reveal_strlit("snapshotBlob");
    law_lines_below(s, i, 5);
    let near = s.subrange(i, lines_below(s, i, 5));
    lemma_find(near, "snapshotText"@, 0);
    lemma_find(near, "snapshotBlob"@, 0);
    if let Some(k) = find(near, "snapshotText"@, 0) {
        assert(s.subrange(i + k, i + k + 12) =~= near.subrange(k, k + 12));
    }
    if let Some(k) = find(near, "snapshotBlob"@, 0) {
        assert(s.subrange(i + k, i + k + 12) =~= near.subrange(k, k + 12));
    }
    if exists|k: int|
        i <= k && k + 12 <= lines_below(s, i, 5) && (#[trigger] s.subrange(k, k + 12)
            == "snapshotText"@ || s.subrange(k, k + 12) == "snapshotBlob"@) {
        let k = choose|k: int|
            i <= k && k + 12 <= lines_below(s, i, 5) && (#[trigger] s.subrange(k, k + 12)
                == "snapshotText"@ || s.subrange(k, k + 12) == "snapshotBlob"@);
        assert(near.subrange(k - i, k - i + 12) =~= s.subrange(k, k + 12));
        assert(match_at(near, k - i, "snapshotText"@) || match_at(near, k - i, "snapshotBlob"@));
    }
}

/// What leads to a place is the white space that its line begins with, up to the place.
pub proof fn law_lead_of(s: Seq<char>, q: int, e: int, at: int)
    requires
        0 <= q <= e <= at <= s.len(),
        q > 0 ==> s[q - 1] == '\n',
        forall|k: int| q <= k < at ==> #[trigger] s[k] != '\n',
        forall|k: int| q <= k < e ==> is_space(#[trigger] s[k]),
        e < at ==> !is_space(s[e]),
    ensures
        line_start(s, at) == q,
        lead_of(s, at) == s.subrange(q, e),
{
    lemma_line_start(s, at);
    let l = line_start(s, at);
    if l < q {
        assert(s[q - 1] != '\n');
    }
    if l > q {
        assert(s[l - 1] != '\n');
    }
    let own = s.subrange(q, at);
    assert forall|k: int| 0 <= k < e - q implies is_space(#[trigger] own[k]) by {
        assert(own[k] == s[q + k]);
    }
    if e < at {
        assert(own[e - q] == s[e]);
    }
    lemma_skipped(own, 0, e - q);
    assert(lead_of(s, at) =~= s.subrange(q, e));
}

proof fn lemma_skipped(s: Seq<char>, i: int, e: int)
    requires
        0 <= i <= e <= s.len(),
        forall|k: int| i <= k < e ==> is_space(#[trigger] s[k]),
        e < s.len() ==> !is_space(s[e]),
    ensures
        skip_space(s, i) == e,
    decreases e - i,
{
    if i < e {
        assert(is_space(s[i]));
        lemma_skipped(s, i + 1, e);
    }
}

/// The drain takes the place of the blanks before the brace that closes the actor, all of them and
/// nothing else.
pub proof fn law_blanks_before(s: Seq<char>, b: int, n: int)
    requires
        0 <= b <= n <= s.len(),
        forall|k: int| b <= k < n ==> #[trigger] s[k] == ' ' || s[k] == '\t' || s[k] == '\n',
        b > 0 ==> s[b - 1] != ' ' && s[b - 1] != '\t' && s[b - 1] != '\n',
    ensures
        blanks_start(s, 0, n) == b,
    decreases n - b,
{
    if b < n {
        assert(s[n - 1] == ' ' || s[n - 1] == '\t' || s[n - 1] == '\n');
        law_blanks_before(s, b, n - 1);
    }
}

// ---------- The entry note ----------

proof fn lemma_first(s: Seq<char>, m: Seq<bool>, p: Seq<char>, i: int, k: int)
    requires
        0 <= i <= k,
        name_match(s, m, k, p),
        forall|j: int| i <= j < k ==> !#[trigger] name_match(s, m, j, p),
    ensures
        find_name(s, m, p, i) == Some(k),
    decreases k - i,
{
    if i < k {
        assert(!name_match(s, m, i, p));
        lemma_first(s, m, p, i + 1, k);
    }
}

proof fn lemma_stands(s: Seq<char>, p: Seq<char>, k: int)
    requires
        p.len() > 0,
        0 <= k,
    ensures
        name_match(s, mask(s), k, p) <==> stands(s, p, k),
{
}

proof fn lemma_semis_end(s: Seq<char>, i: int, e: int)
    requires
        0 <= i <= e <= s.len(),
        forall|k: int| i <= k < e ==> #[trigger] s[k] == ';' || s[k] == ' ',
        e < s.len() ==> s[e] != ';' && s[e] != ' ',
    ensures
        after_semis(s, i) == e,
    decreases e - i,
{
    if i < e {
        assert(s[i] == ';' || s[i] == ' ');
        lemma_semis_end(s, i + 1, e);
    }
}

/// The note of the entry goes behind the first call of `methodEntered`: behind the bracket that
/// closes it, the `;` and the spaces that follow up to `e`, and a line feed that stands there.
pub proof fn law_note_goes_behind_entry(
    body: Seq<char>,
    tracer: Seq<char>,
    at: int,
    close: int,
    e: int,
)
    requires
        stands(body, tracer + ".methodEntered("@, at),
        forall|j: int| 0 <= j < at ==> !#[trigger] stands(body, tracer + ".methodEntered("@, j),
        matching(body, mask(body), '(', ')', at + tracer.len() + 14) == Some(close),
        0 <= close < e <= body.len(),
        forall|k: int| close < k < e ==> #[trigger] body[k] == ';' || body[k] == ' ',
        e < body.len() ==> body[e] != ';' && body[e] != ' ',
    ensures
        e < body.len() && body[e] == '\n' ==> entry_place(body, tracer) == Some(e + 1),
        e == body.len() || body[e] != '\n' ==> entry_place(body, tracer) == Some(e),
{
    reveal_strlit(".methodEntered(");
    let p = tracer + ".methodEntered("@;
    lemma_stands(body, p, at);
    assert forall|j: int| 0 <= j < at implies !#[trigger] name_match(body, mask(body), j, p) by {
        lemma_stands(body, p, j);
        assert(!stands(body, p, j));
    }
    lemma_first(body, mask(body), p, 0, at);
    lemma_semis_end(body, close + 1, e);
}

proof fn lemma_quote_at(s: Seq<char>, i: int, k: int)
    requires
        0 <= i <= k < s.len(),
        s[k] == '"',
        forall|j: int| i <= j < k ==> #[trigger] s[j] != '"',
    ensures
        find_char(s, '"', i) == Some(k),
    decreases k - i,
{
    if i < k {
        assert(s[i] != '"');
        lemma_quote_at(s, i + 1, k);
    }
}

/// The entry counts as noted where the first call of `note` stands in the first ten lines with a
/// text that ends in `:enter`, from `x` up to `y`; without a call of `note` it does not.
pub proof fn law_noted_entry(body: Seq<char>, tracer: Seq<char>, at: int, x: int, y: int)
    ensures
        ({
            let p = tracer + ".note("@;
            &&& tracer.len() > 0 && tracer[0] != '\n'
            &&& stands(body, p, at)
            &&& forall|j: int| 0 <= j < at ==> !#[trigger] stands(body, p, j)
            &&& feeds_between(body, 0, at) < 10
            &&& x == at + p.len() + 1 && x + 6 <= y < body.len()
            &&& body[x - 1] == '"' && body[y] == '"'
            &&& forall|k: int| x <= k < y ==> #[trigger] body[k] != '"'
            &&& body.subrange(y - 6, y) == ":enter"@
        }) ==> has_entry_note(body, tracer),
        (forall|j: int| !#[trigger] stands(body, tracer + ".note("@, j)) ==> !has_entry_note(
            body,
            tracer,
        ),
{
    reveal_strlit(".note(");
    reveal_strlit(":enter");
    let p = tracer + ".note("@;
    let m = mask(body);
    if {
        &&& tracer.len() > 0 && tracer[0] != '\n'
        &&& stands(body, p, at)
        &&& forall|j: int| 0 <= j < at ==> !#[trigger] stands(body, p, j)
        &&& feeds_between(body, 0, at) < 10
        &&& x == at + p.len() + 1 && x + 6 <= y < body.len()
        &&& body[x - 1] == '"' && body[y] == '"'
        &&& forall|k: int| x <= k < y ==> #[trigger] body[k] != '"'
        &&& body.subrange(y - 6, y) == ":enter"@
    } {
        lemma_stands(body, p, at);
        assert forall|j: int| 0 <= j < at implies !#[trigger] name_match(body, m, j, p) by {
            lemma_stands(body, p, j);
            assert(!stands(body, p, j));
        }
        lemma_first(body, m, p, 0, at);
        let limit = lines_below(body, 0, 9);
        law_lines_below(body, 0, 9);
        if at >= limit {
            assert(body.subrange(at, at + p.len())[0] == body[at]);
            assert(p[0] == tracer[0]);
            lemma_feeds_add(body, 0, limit, at);
            if limit < at {
                lemma_feeds_add(body, limit, limit + 1, at);
                lemma_feeds_low(body, limit + 1, at);
                reveal_with_fuel(feeds_between, 2);
                assert(feeds_between(body, limit, limit + 1) == 1);
            }
        }
        lemma_quote_at(body, x - 1, x - 1);
        lemma_quote_at(body, x, y);
        assert(quoted(body, at + p.len()) == Some((x, y)));
        let t = body.subrange(x, y);
        assert(t.subrange(t.len() - 6, t.len() as int) =~= body.subrange(y - 6, y));
    }
    if forall|j: int| !#[trigger] stands(body, p, j) {
        lemma_find_name(body, m, p, 0);
        if let Some(k) = find_name(body, m, p, 0) {
            assert(stands(body, p, k));
        }
        if let Some(k) = entry_place(body, tracer) {
            let q = skip_space(body, k);
            if name_match(body, m, q, p) {
                assert(stands(body, p, q));
            }
        }
    }
}

// ---------- Statements, parameters and the drain ----------

proof fn lemma_open_end(s: Seq<char>, m: Seq<bool>, i: int)
    requires
        0 <= i <= s.len(),
        forall|k: int|
            i <= k < s.len() && m[k] ==> {
                let c = #[trigger] s[k];
                c != ';' && c != '(' && c != ')' && c != '{' && c != '}' && c != '[' && c != ']'
            },
    ensures
        statement_end(s, m, i, 0) == Some(
            StatementEnd { at: code_end(s, m, s.len() as int), closed: false },
        ),
    decreases s.len() - i,
{
    if i < s.len() {
        assert(s[i] == s[i]);
        lemma_open_end(s, m, i + 1);
    }
}

/// The last statement of a body, where no `;` ends it, ends with the last of its code; it counts as
/// not closed.
pub proof fn law_last_statement_ends_with_its_code(s: Seq<char>, i: int, e: int)
    requires
        0 <= i < e <= s.len(),
        forall|k: int|
            i <= k < s.len() && mask(s)[k] ==> {
                let c = #[trigger] s[k];
                c != ';' && c != '(' && c != ')' && c != '{' && c != '}' && c != '[' && c != ']'
            },
        mask(s)[e - 1],
        !is_space(s[e - 1]),
        forall|k: int| e <= k < s.len() && mask(s)[k] ==> is_space(#[trigger] s[k]),
    ensures
        statement_end(s, mask(s), i, 0) == Some(StatementEnd { at: e, closed: false }),
{
    lemma_open_end(s, mask(s), i);
    lemma_code_ends(s, mask(s), e, s.len() as int);
}

proof fn lemma_code_ends(s: Seq<char>, m: Seq<bool>, e: int, n: int)
    requires
        0 < e <= n <= s.len(),
        m[e - 1],
        !is_space(s[e - 1]),
        forall|k: int| e <= k < n && m[k] ==> is_space(#[trigger] s[k]),
    ensures
        code_end(s, m, n) == e,
    decreases n - e,
{
    if e < n {
        assert(m[n - 1] ==> is_space(s[n - 1]));
        lemma_code_ends(s, m, e, n - 1);
    }
}

/// A function has no parameters where only white space stands between its brackets, and only there.
pub proof fn law_no_parameters(s: Seq<char>, i: int, h: Shape, offset: int, names: Names, k: int)
    requires
        0 <= h.params_open <= h.params_close <= s.len(),
    ensures
        (forall|j: int| h.params_open <= j < h.params_close ==> is_space(#[trigger] s[j]))
            ==> func_view(s, i, h, offset, names).params_empty,
        h.params_open <= k < h.params_close && !is_space(s[k]) ==> !func_view(
            s,
            i,
            h,
            offset,
            names,
        ).params_empty,
{
    let p = s.subrange(h.params_open, h.params_close);
    let n = p.len() as int;
    if forall|j: int| h.params_open <= j < h.params_close ==> is_space(#[trigger] s[j]) {
        assert forall|j: int| 0 <= j < n implies is_space(#[trigger] p[j]) by {
            assert(p[j] == s[j + h.params_open]);
        }
        law_trim(p, 0, 0);
    }
    if h.params_open <= k < h.params_close && !is_space(s[k]) {
        assert(p[k - h.params_open] == s[k]);
        let a = lemma_first_other(p, 0, k - h.params_open);
        let b = lemma_last_other(p, n, k - h.params_open);
        law_trim(p, a, b);
    }
}

proof fn lemma_first_other(p: Seq<char>, i: int, k: int) -> (a: int)
    requires
        0 <= i <= k < p.len(),
        !is_space(p[k]),
    ensures
        i <= a <= k,
        !is_space(p[a]),
        forall|j: int| i <= j < a ==> is_space(#[trigger] p[j]),
    decreases k - i,
{
    if is_space(p[i]) {
        lemma_first_other(p, i + 1, k)
    } else {
        i
    }
}

proof fn lemma_last_other(p: Seq<char>, n: int, k: int) -> (b: int)
    requires
        0 <= k < n <= p.len(),
        !is_space(p[k]),
    ensures
        k < b <= n,
        !is_space(p[b - 1]),
        forall|j: int| b <= j < n ==> is_space(#[trigger] p[j]),
    decreases n - k,
{
    if is_space(p[n - 1]) {
        lemma_last_other(p, n - 1, k)
    } else {
        n
    }
}

proof fn lemma_word(s: Seq<char>, m: Seq<bool>, w: Seq<char>, i: int)
    requires
        0 <= i,
    ensures
        find_word(s, m, w, i) is Some <==> exists|k: int|
            i <= k < s.len() && #[trigger] word_at(s, m, k, w),
    decreases s.len() - i,
{
    if i < s.len() {
        lemma_word(s, m, w, i + 1);
    }
}

/// An actor has its drain where its code declares the function, and only there.
pub proof fn law_drain_is_seen(src: Seq<char>, a: ActorView)
    requires
        actor_of(src) == Some(a),
        0 <= a.open <= a.close <= src.len(),
    ensures
        a.has_drain <==> exists|k: int|
            0 <= k < a.close - a.open && #[trigger] word_at(
                src.subrange(a.open, a.close),
                mask(src.subrange(a.open, a.close)),
                k,
                "func __debug_drain"@,
            ),
{
    let body = src.subrange(a.open, a.close);
    lemma_word(body, mask(body), "func __debug_drain"@, 0);
}

} // verus!
