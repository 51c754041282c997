//! Names for canisters: defaults from mapping files, and what users call them.

use vstd::prelude::*;
use vstd::string::*;

use crate::text::{
    chars_of, is_space, law_trim, lemma_rank_chain, lemma_rank_flip, lemma_rank_same, rank,
    rank_text, string_of, trim, trim_of, Rank,
};

verus! {

/// A principal and its name, as mathematical values.
pub struct Entry {
    pub principal: Seq<char>,
    pub name: Seq<char>,
}

/// Names by principal, in the order of the principals, each once.
pub struct NameTable {
    rows: Vec<(String, String)>,
}

/// The entries have their principals in order, each once.
pub open spec fn ordered(es: Seq<Entry>) -> bool {
    forall|i: int, j: int|
        0 <= i < j < es.len() ==> rank(
            (#[trigger] es[i]).principal,
            (#[trigger] es[j]).principal,
        ) == Rank::Before
}

/// The first entry at or after `i` whose principal does not come before `p`.
pub open spec fn spot(es: Seq<Entry>, p: Seq<char>, i: int) -> int
    decreases es.len() - i,
{
    if 0 <= i < es.len() && rank(es[i].principal, p) == Rank::Before {
        spot(es, p, i + 1)
    } else {
        i
    }
}

/// The name of a principal.
pub open spec fn name_of(es: Seq<Entry>, p: Seq<char>) -> Option<Seq<char>> {
    let i = spot(es, p, 0);
    if i < es.len() && es[i].principal == p {
        Some(es[i].name)
    } else {
        None
    }
}

/// The entries with a name for `p`; a name that it has is kept.
pub open spec fn with_default(es: Seq<Entry>, p: Seq<char>, n: Seq<char>) -> Seq<Entry> {
    if name_of(es, p) is Some {
        es
    } else {
        es.insert(spot(es, p, 0), Entry { principal: p, name: n })
    }
}

/// The entries with a name for `p`, in the place of one that it has.
pub open spec fn with_name(es: Seq<Entry>, p: Seq<char>, n: Seq<char>) -> Seq<Entry> {
    let i = spot(es, p, 0);
    if name_of(es, p) is Some {
        es.update(i, Entry { principal: p, name: n })
    } else {
        es.insert(i, Entry { principal: p, name: n })
    }
}

impl View for NameTable {
    type V = Seq<Entry>;

    closed spec fn view(&self) -> Seq<Entry> {
        Seq::new(
            self.rows@.len(),
            |i: int| Entry { principal: self.rows@[i].0@, name: self.rows@[i].1@ },
        )
    }
}

proof fn lemma_spot(es: Seq<Entry>, p: Seq<char>, i: int)
    requires
        0 <= i <= es.len(),
    ensures
        i <= spot(es, p, i) <= es.len(),
        forall|k: int|
            i <= k < spot(es, p, i) ==> rank((#[trigger] es[k]).principal, p) == Rank::Before,
        spot(es, p, i) < es.len() ==> rank(es[spot(es, p, i)].principal, p) != Rank::Before,
    decreases es.len() - i,
{
    if i < es.len() && rank(es[i].principal, p) == Rank::Before {
        lemma_spot(es, p, i + 1);
    }
}

/// In entries in order, a principal that occurs is found.
pub proof fn law_every_entry_is_found(es: Seq<Entry>, i: int)
    requires
        ordered(es),
        0 <= i < es.len(),
    ensures
        name_of(es, es[i].principal) == Some(es[i].name),
{
    let p = es[i].principal;
    lemma_spot(es, p, 0);
    let k = spot(es, p, 0);
    lemma_rank_same(p, p);
    if k < i {
        assert(rank(es[k].principal, es[i].principal) == Rank::Before);
    } else if k > i {
        assert(rank(es[i].principal, p) == Rank::Before);
    }
}

proof fn lemma_insert_keeps_order(es: Seq<Entry>, p: Seq<char>, n: Seq<char>)
    requires
        ordered(es),
        name_of(es, p) is None,
    ensures
        ordered(es.insert(spot(es, p, 0), Entry { principal: p, name: n })),
{
    lemma_spot(es, p, 0);
    let at = spot(es, p, 0);
    let out = es.insert(at, Entry { principal: p, name: n });
    if at < es.len() {
        lemma_rank_same(es[at].principal, p);
        lemma_rank_flip(es[at].principal, p);
    }
    assert forall|i: int, j: int| 0 <= i < j < out.len() implies rank(
        (#[trigger] out[i]).principal,
        (#[trigger] out[j]).principal,
    ) == Rank::Before by {
        if j < at {
            assert(out[i] == es[i] && out[j] == es[j]);
        } else if j == at {
            assert(out[i] == es[i]);
        } else if i < at {
            assert(out[i] == es[i] && out[j] == es[j - 1]);
        } else if i == at {
            assert(out[j] == es[j - 1]);
            if j - 1 > at {
                assert(rank(es[at].principal, es[j - 1].principal) == Rank::Before);
                lemma_rank_chain(p, es[at].principal, es[j - 1].principal);
            }
        } else {
            assert(out[i] == es[i - 1] && out[j] == es[j - 1]);
        }
    }
}

impl NameTable {
    /// The principals are in order, each once.
    pub open spec fn wf(&self) -> bool {
        ordered(self@)
    }

    /// No names.
    pub fn new() -> (t: NameTable)
        ensures
            t@ == Seq::<Entry>::empty(),
            t.wf(),
    {
        let t = NameTable { rows: Vec::new() };
        assert(t@ =~= Seq::<Entry>::empty());
        t
    }

    /// The number of names.
    pub fn len(&self) -> (n: usize)
        ensures
            n == self@.len(),
    {
        self.rows.len()
    }

    fn find(&self, p: &str) -> (r: (usize, bool))
        ensures
            r.0 == spot(self@, p@, 0),
            r.0 <= self@.len(),
            r.1 == (name_of(self@, p@) is Some),
            r.1 ==> r.0 < self@.len(),
    {
        let ghost all = self@;
        let mut i: usize = 0;
        while i < self.rows.len()
            invariant
                i <= self.rows@.len(),
                all == self@,
                spot(all, p@, 0) == spot(all, p@, i as int),
            decreases self.rows@.len() - i,
        {
            assert(all[i as int].principal == self.rows@[i as int].0@);
            proof {
                lemma_rank_same(all[i as int].principal, p@);
            }
            match rank_text(self.rows[i].0.as_str(), p) {
                Rank::Before => {
                    i += 1;
                },
                Rank::Same => {
                    return (i, true);
                },
                Rank::After => {
                    return (i, false);
                },
            }
        }
        (i, false)
    }

    /// The name of a principal.
    pub fn get(&self, p: &str) -> (r: Option<&String>)
        ensures
            match r {
                Some(n) => name_of(self@, p@) == Some(n@),
                None => name_of(self@, p@) is None,
            },
    {
        let (i, found) = self.find(p);
        if found {
            assert(self@[i as int].name == self.rows@[i as int].1@);
            Some(&self.rows[i].1)
        } else {
            None
        }
    }

    /// Name a principal, unless it has a name.
    pub fn add_default(&mut self, p: String, n: String)
        requires
            old(self).wf(),
        ensures
            final(self).wf(),
            final(self)@ == with_default(old(self)@, p@, n@),
    {
        let ghost before = self@;
        let (i, found) = self.find(p.as_str());
        if !found {
            proof {
                lemma_insert_keeps_order(before, p@, n@);
            }
            self.rows.insert(i, (p, n));
            assert(self@ =~= before.insert(i as int, Entry { principal: p@, name: n@ }));
        }
    }

    /// Name a principal, in the place of a name that it has.
    pub fn set(&mut self, p: String, n: String)
        requires
            old(self).wf(),
        ensures
            final(self).wf(),
            final(self)@ == with_name(old(self)@, p@, n@),
    {
        let ghost before = self@;
        let (i, found) = self.find(p.as_str());
        if found {
            assert(before[i as int].principal == p@);
            self.rows.remove(i);
            self.rows.insert(i, (p, n));
            assert(self@ =~= before.update(i as int, Entry { principal: p@, name: n@ }));
            assert forall|a: int, b: int| 0 <= a < b < self@.len() implies rank(
                (#[trigger] self@[a]).principal,
                (#[trigger] self@[b]).principal,
            ) == Rank::Before by {
                assert(self@[a].principal == before[a].principal);
                assert(self@[b].principal == before[b].principal);
            }
        } else {
            proof {
                lemma_insert_keeps_order(before, p@, n@);
            }
            self.rows.insert(i, (p, n));
            assert(self@ =~= before.insert(i as int, Entry { principal: p@, name: n@ }));
        }
    }

    /// The principal and the name at a place.
    pub fn entry(&self, i: usize) -> (r: (&String, &String))
        requires
            i < self@.len(),
        ensures
            r.0@ == self@[i as int].principal,
            r.1@ == self@[i as int].name,
    {
        (&self.rows[i].0, &self.rows[i].1)
    }
}

// ---------- Defaults ----------

/// Pairs of texts as mathematical values.
pub open spec fn pairs(v: Seq<(String, String)>) -> Seq<(Seq<char>, Seq<char>)> {
    Seq::new(v.len(), |i: int| (v[i].0@, v[i].1@))
}

/// The defaults with the first `n` entries of a mapping file, whose names come first. A principal
/// that has a name keeps it.
pub open spec fn with_file(es: Seq<Entry>, file: Seq<(Seq<char>, Seq<char>)>, n: nat) -> Seq<Entry>
    decreases n,
{
    if n == 0 || n > file.len() {
        es
    } else {
        with_default(with_file(es, file, (n - 1) as nat), file[n - 1].1, file[n - 1].0)
    }
}

/// Add a mapping file, whose entries are a name and a principal each, to the defaults. A principal
/// that has a name keeps it, so that earlier files go first.
pub fn add_file(defaults: &mut NameTable, file: Vec<(String, String)>)
    requires
        old(defaults).wf(),
    ensures
        final(defaults).wf(),
        final(defaults)@ == with_file(old(defaults)@, pairs(file@), file@.len()),
{
    let ghost start = defaults@;
    let ghost entries = pairs(file@);
    let mut i: usize = 0;
    while i < file.len()
        invariant
            i <= file@.len(),
            defaults.wf(),
            entries == pairs(file@),
            defaults@ == with_file(start, entries, i as nat),
        decreases file@.len() - i,
    {
        assert(entries[i as int] == (file@[i as int].0@, file@[i as int].1@));
        defaults.add_default(file[i].1.clone(), file[i].0.clone());
        i += 1;
    }
}

/// What `serde_json` reads from the text of a mapping file: each name with its principal, in the
/// order of the names, or the text of the error.
pub uninterp spec fn mapping_of(text: Seq<char>) -> Result<
    Seq<(Seq<char>, Seq<char>)>,
    Seq<char>,
>;

/// Calls `serde_json::from_str` for a `BTreeMap` of texts and hands its entries out in their
/// order. What is read depends on the text alone.
#[verifier::external_body]
fn read_mapping(text: &str) -> (r: Result<Vec<(String, String)>, String>)
    ensures
        match r {
            Ok(v) => mapping_of(text@) == Ok::<Seq<(Seq<char>, Seq<char>)>, Seq<char>>(pairs(v@)),
            Err(m) => mapping_of(text@) == Err::<Seq<(Seq<char>, Seq<char>)>, Seq<char>>(m@),
        },
{
    match serde_json::from_str::<std::collections::BTreeMap<String, String>>(text) {
        Ok(map) => Ok(map.into_iter().collect()),
        Err(e) => Err(e.to_string()),
    }
}

/// Add what the text of a mapping file holds to the defaults. A text that cannot be read leaves
/// them as they are.
pub fn add_mapping(defaults: &mut NameTable, text: &str) -> (r: Result<(), String>)
    requires
        old(defaults).wf(),
    ensures
        final(defaults).wf(),
        match mapping_of(text@) {
            Ok(file) => r is Ok && final(defaults)@ == with_file(
                old(defaults)@,
                file,
                file.len(),
            ),
            Err(message) => (r matches Err(m) && m@ == message) && final(defaults)@ == old(
                defaults,
            )@,
        },
{
    match read_mapping(text) {
        Ok(file) => {
            add_file(defaults, file);
            Ok(())
        },
        Err(m) => Err(m),
    }
}

// ---------- What is listed ----------

/// Where a name comes from.
#[derive(Debug, Clone, Copy, PartialEq, Eq, Structural)]
pub enum Source {
    Default,
    Override,
}

impl Source {
    /// Where a name comes from, in a word.
    pub open spec fn name(self) -> Seq<char> {
        match self {
            Source::Default => "default"@,
            Source::Override => "override"@,
        }
    }

    /// Where a name comes from, in a word.
    pub fn as_str(self) -> (r: &'static str)
        ensures
            r@ == self.name(),
    {
        match self {
            Source::Default => "default",
            Source::Override => "override",
        }
    }
}

/// A principal with the name that it goes by.
#[derive(Debug)]
pub struct CanisterNameRow {
    pub principal: String,
    pub name: String,
    pub source: Source,
    pub default_name: Option<String>,
}

/// A principal with the name that it goes by, as mathematical values.
pub struct RowView {
    pub principal: Seq<char>,
    pub name: Seq<char>,
    pub source: Source,
    pub default_name: Option<Seq<char>>,
}

impl View for CanisterNameRow {
    type V = RowView;

    open spec fn view(&self) -> RowView {
        RowView {
            principal: self.principal@,
            name: self.name@,
            source: self.source,
            default_name: match self.default_name {
                Some(n) => Some(n@),
                None => None,
            },
        }
    }
}

/// The views of a sequence of rows.
pub open spec fn rows_view(v: Seq<CanisterNameRow>) -> Seq<RowView> {
    Seq::new(v.len(), |i: int| v[i]@)
}

/// The rows of what users call canisters.
pub open spec fn override_rows(overrides: Seq<Entry>, defaults: Seq<Entry>) -> Seq<RowView> {
    Seq::new(
        overrides.len(),
        |i: int|
            RowView {
                principal: overrides[i].principal,
                name: overrides[i].name,
                source: Source::Override,
                default_name: name_of(defaults, overrides[i].principal),
            },
    )
}

/// The rows of those of the first `n` defaults that users call nothing else.
pub open spec fn default_rows(overrides: Seq<Entry>, defaults: Seq<Entry>, n: nat) -> Seq<RowView>
    decreases n,
{
    if n == 0 || n > defaults.len() {
        Seq::empty()
    } else {
        let before = default_rows(overrides, defaults, (n - 1) as nat);
        let d = defaults[n - 1];
        if name_of(overrides, d.principal) is Some {
            before
        } else {
            before.push(
                RowView {
                    principal: d.principal,
                    name: d.name,
                    source: Source::Default,
                    default_name: Some(d.name),
                },
            )
        }
    }
}

/// All names: first what users call canisters, then the other defaults.
pub open spec fn listing(overrides: Seq<Entry>, defaults: Seq<Entry>) -> Seq<RowView> {
    override_rows(overrides, defaults) + default_rows(overrides, defaults, defaults.len())
}

/// All names: first what users call canisters, then the other defaults.
pub fn list_names(overrides: &NameTable, defaults: &NameTable) -> (out: Vec<CanisterNameRow>)
    ensures
        rows_view(out@) == listing(overrides@, defaults@),
{
    let mut out: Vec<CanisterNameRow> = Vec::new();
    let ghost first = override_rows(overrides@, defaults@);
    let mut i: usize = 0;
    while i < overrides.len()
        invariant
            i <= overrides@.len(),
            first == override_rows(overrides@, defaults@),
            rows_view(out@) == first.subrange(0, i as int),
        decreases overrides@.len() - i,
    {
        let ghost before = rows_view(out@);
        let (p, n) = overrides.entry(i);
        let row = CanisterNameRow {
            principal: p.clone(),
            name: n.clone(),
            source: Source::Override,
            default_name: match defaults.get(p.as_str()) {
                Some(d) => Some(d.clone()),
                None => None,
            },
        };
        let ghost found = row@;
        assert(found == first[i as int]);
        out.push(row);
        assert(rows_view(out@) =~= before.push(found));
        i += 1;
        assert(first.subrange(0, i as int) =~= first.subrange(0, i - 1).push(first[i - 1]));
    }
    assert(first.subrange(0, i as int) =~= first);
    let mut k: usize = 0;
    assert(first + default_rows(overrides@, defaults@, 0) =~= first);
    while k < defaults.len()
        invariant
            k <= defaults@.len(),
            rows_view(out@) == first + default_rows(overrides@, defaults@, k as nat),
        decreases defaults@.len() - k,
    {
        let ghost before = rows_view(out@);
        let ghost done = default_rows(overrides@, defaults@, k as nat);
        let (p, n) = defaults.entry(k);
        if overrides.get(p.as_str()).is_none() {
            let row = CanisterNameRow {
                principal: p.clone(),
                name: n.clone(),
                source: Source::Default,
                default_name: Some(n.clone()),
            };
            let ghost found = row@;
            out.push(row);
            assert(rows_view(out@) =~= before.push(found));
            assert(before.push(found) =~= first + done.push(found));
        }
        k += 1;
    }
    out
}

/// What users call a canister goes before its default.
pub proof fn law_override_wins(overrides: Seq<Entry>, defaults: Seq<Entry>, i: int)
    requires
        0 <= i < overrides.len(),
    ensures
        listing(overrides, defaults)[i].principal == overrides[i].principal,
        listing(overrides, defaults)[i].name == overrides[i].name,
        listing(overrides, defaults)[i].source == Source::Override,
{
}

proof fn lemma_default_rows(overrides: Seq<Entry>, defaults: Seq<Entry>, n: nat)
    requires
        n <= defaults.len(),
    ensures
        forall|k: int|
            0 <= k < default_rows(overrides, defaults, n).len() ==> is_default_row(
                #[trigger] default_rows(overrides, defaults, n)[k],
                overrides,
                defaults,
                n,
            ),
    decreases n,
{
    if n > 0 {
        lemma_default_rows(overrides, defaults, (n - 1) as nat);
        let before = default_rows(overrides, defaults, (n - 1) as nat);
        let now = default_rows(overrides, defaults, n);
        assert forall|k: int| 0 <= k < now.len() implies is_default_row(
            #[trigger] now[k],
            overrides,
            defaults,
            n,
        ) by {
            if k < before.len() {
                assert(now[k] == before[k]);
                assert(is_default_row(before[k], overrides, defaults, (n - 1) as nat));
            } else {
                assert(defaults[n - 1].principal == now[k].principal);
            }
        }
    }
}

/// The row is of one of the first `n` defaults, which users call nothing else.
spec fn is_default_row(r: RowView, overrides: Seq<Entry>, defaults: Seq<Entry>, n: nat) -> bool {
    name_of(overrides, r.principal) is None && exists|j: int|
        0 <= j < n && (#[trigger] defaults[j]).principal == r.principal
}

proof fn lemma_default_rows_differ(overrides: Seq<Entry>, defaults: Seq<Entry>, n: nat)
    requires
        ordered(defaults),
        n <= defaults.len(),
    ensures
        forall|a: int, b: int|
            0 <= a < b < default_rows(overrides, defaults, n).len() ==> (
            #[trigger] default_rows(overrides, defaults, n)[a]).principal != (
            #[trigger] default_rows(overrides, defaults, n)[b]).principal,
    decreases n,
{
    if n > 0 {
        let m = (n - 1) as nat;
        lemma_default_rows_differ(overrides, defaults, m);
        lemma_default_rows(overrides, defaults, m);
        let before = default_rows(overrides, defaults, m);
        let now = default_rows(overrides, defaults, n);
        assert forall|a: int, b: int| 0 <= a < b < now.len() implies (#[trigger] now[a]).principal
            != (#[trigger] now[b]).principal by {
            assert(now[a] == before[a]);
            assert(is_default_row(before[a], overrides, defaults, m));
            if b < before.len() {
                assert(now[b] == before[b]);
            } else {
                let j = choose|j: int|
                    0 <= j < m && (#[trigger] defaults[j]).principal == now[a].principal;
                assert(rank(defaults[j].principal, defaults[m as int].principal)
                    == Rank::Before);
                lemma_rank_same(defaults[j].principal, defaults[m as int].principal);
            }
        }
    }
}

/// Every canister is listed once.
pub proof fn law_listed_once(overrides: Seq<Entry>, defaults: Seq<Entry>, a: int, b: int)
    requires
        ordered(overrides),
        ordered(defaults),
        0 <= a < b < listing(overrides, defaults).len(),
    ensures
        listing(overrides, defaults)[a].principal != listing(overrides, defaults)[b].principal,
{
    let all = listing(overrides, defaults);
    let first = override_rows(overrides, defaults);
    let rest = default_rows(overrides, defaults, defaults.len());
    lemma_default_rows(overrides, defaults, defaults.len());
    lemma_default_rows_differ(overrides, defaults, defaults.len());
    if b < first.len() {
        assert(rank(overrides[a].principal, overrides[b].principal) == Rank::Before);
        lemma_rank_same(overrides[a].principal, overrides[b].principal);
    } else if a < first.len() {
        assert(all[b] == rest[b - first.len()]);
        assert(is_default_row(rest[b - first.len()], overrides, defaults, defaults.len()));
        law_every_entry_is_found(overrides, a);
    } else {
        assert(all[a] == rest[a - first.len()]);
        assert(all[b] == rest[b - first.len()]);
    }
}

// ---------- Changes ----------

/// The name that a canister gets: what was sent without white space around it; none where nothing
/// is left.
pub open spec fn new_name(sent: Seq<char>) -> Option<Seq<char>> {
    if trim(sent).len() == 0 {
        None
    } else {
        Some(trim(sent))
    }
}

/// The name that a canister gets: what was sent without white space around it; none where nothing
/// is left, which is refused.
pub fn accept_name(sent: &str) -> (r: Option<String>)
    ensures
        match r {
            Some(n) => new_name(sent@) == Some(n@),
            None => new_name(sent@) is None,
        },
{
    let chars = chars_of(sent);
    let t = trim_of(chars.as_slice());
    if t.len() == 0 {
        None
    } else {
        Some(string_of(t))
    }
}

/// Where the name of a canister comes from once users call it nothing else.
pub open spec fn source_left(defaults: Seq<Entry>, p: Seq<char>) -> Seq<char> {
    match name_of(defaults, p) {
        Some(_) => "default"@,
        None => "none"@,
    }
}

/// The name of a canister once users call it nothing else, and where that comes from.
pub fn after_delete(defaults: &NameTable, p: &str) -> (r: (Option<String>, &'static str))
    ensures
        match r.0 {
            Some(n) => name_of(defaults@, p@) == Some(n@),
            None => name_of(defaults@, p@) is None,
        },
        r.1@ == source_left(defaults@, p@),
{
    match defaults.get(p) {
        Some(n) => (Some(n.clone()), "default"),
        None => (None, "none"),
    }
}

// ---------- What a table answers ----------

/// Where the principal of an entry is `p`, that entry names it; where that of none is, nothing does.
proof fn lemma_name_of(es: Seq<Entry>, p: Seq<char>)
    requires
        ordered(es),
    ensures
        forall|i: int|
            0 <= i < es.len() && (#[trigger] es[i]).principal == p ==> name_of(es, p) == Some(
                es[i].name,
            ),
        (forall|i: int| 0 <= i < es.len() ==> (#[trigger] es[i]).principal != p) <==> name_of(
            es,
            p,
        ) is None,
{
    lemma_spot(es, p, 0);
    assert forall|i: int| 0 <= i < es.len() && (#[trigger] es[i]).principal == p implies name_of(
        es,
        p,
    ) == Some(es[i].name) by {
        law_every_entry_is_found(es, i);
    }
    if name_of(es, p) is Some {
        assert(es[spot(es, p, 0)].principal == p);
    }
}

/// Once a principal is given a name, that is its name, whatever it was called before, and the others
/// keep theirs.
pub proof fn law_given_name_is_kept(es: Seq<Entry>, p: Seq<char>, n: Seq<char>, q: Seq<char>)
    requires
        ordered(es),
    ensures
        ordered(with_name(es, p, n)),
        name_of(with_name(es, p, n), p) == Some(n),
        q != p ==> name_of(with_name(es, p, n), q) == name_of(es, q),
{
    let out = with_name(es, p, n);
    let at = spot(es, p, 0);
    lemma_spot(es, p, 0);
    if name_of(es, p) is Some {
        assert forall|i: int, j: int| 0 <= i < j < out.len() implies rank(
            (#[trigger] out[i]).principal,
            (#[trigger] out[j]).principal,
        ) == Rank::Before by {
            assert(out[i].principal == es[i].principal);
            assert(out[j].principal == es[j].principal);
        }
        assert forall|i: int| 0 <= i < es.len() && i != at implies #[trigger] out[i] == es[i] by {}
    } else {
        lemma_insert_keeps_order(es, p, n);
    }
    assert(out[at].principal == p && out[at].name == n);
    lemma_name_of(out, p);
    if q != p {
        lemma_same_name(es, out, at, q);
    }
}

/// Entry `at` aside, `out` holds the entries of `es`.
proof fn lemma_same_name(es: Seq<Entry>, out: Seq<Entry>, at: int, q: Seq<char>)
    requires
        ordered(es),
        ordered(out),
        0 <= at < out.len(),
        out[at].principal != q,
        out == es.insert(at, out[at]) || (at < es.len() && out == es.update(at, out[at])
            && es[at].principal != q),
        at <= es.len(),
    ensures
        name_of(out, q) == name_of(es, q),
{
    lemma_name_of(es, q);
    lemma_name_of(out, q);
    if name_of(out, q) is Some {
        let k = spot(out, q, 0);
        lemma_spot(out, q, 0);
        assert(out[k].principal == q);
        if at < es.len() && out == es.update(at, out[at]) {
            assert(es[k] == out[k]);
        } else if k < at {
            assert(es[k] == out[k]);
        } else {
            assert(es[k - 1] == out[k]);
        }
    } else {
        assert forall|i: int| 0 <= i < es.len() implies (#[trigger] es[i]).principal != q by {
            if at < es.len() && out == es.update(at, out[at]) {
                if i != at {
                    assert(out[i] == es[i]);
                }
            } else if i < at {
                assert(out[i] == es[i]);
            } else {
                assert(out[i + 1] == es[i]);
            }
        }
    }
}

/// A default goes to a principal that has no name, and to none that has; the others keep theirs.
pub proof fn law_default_fills_in(es: Seq<Entry>, p: Seq<char>, n: Seq<char>, q: Seq<char>)
    requires
        ordered(es),
    ensures
        ordered(with_default(es, p, n)),
        name_of(es, p) is Some ==> name_of(with_default(es, p, n), p) == name_of(es, p),
        name_of(es, p) is None ==> name_of(with_default(es, p, n), p) == Some(n),
        q != p ==> name_of(with_default(es, p, n), q) == name_of(es, q),
{
    if name_of(es, p) is None {
        law_given_name_is_kept(es, p, n, q);
    }
}

/// A mapping file leaves each name that there is, and gives each other principal the first name that
/// the file has for it. What the file does not mention has no name from it.
pub proof fn law_earlier_names_stay(
    es: Seq<Entry>,
    file: Seq<(Seq<char>, Seq<char>)>,
    n: nat,
    p: Seq<char>,
    k: int,
)
    requires
        ordered(es),
        0 <= k <= n <= file.len(),
        forall|j: int| 0 <= j < k ==> (#[trigger] file[j]).1 != p,
        k < n ==> file[k].1 == p,
    ensures
        ordered(with_file(es, file, n)),
        name_of(es, p) is Some ==> name_of(with_file(es, file, n), p) == name_of(es, p),
        name_of(es, p) is None && k < n ==> name_of(with_file(es, file, n), p) == Some(file[k].0),
        name_of(es, p) is None && k == n ==> name_of(with_file(es, file, n), p) is None,
    decreases n,
{
    if n > 0 {
        let m = (n - 1) as nat;
        if k < n - 1 || k == n {
            law_earlier_names_stay(
                es,
                file,
                m,
                p,
                if k == n {
                    m as int
                } else {
                    k
                },
            );
        } else {
            law_earlier_names_stay(es, file, m, p, m as int);
        }
        law_default_fills_in(with_file(es, file, m), file[n - 1].1, file[n - 1].0, p);
        if k == n {
            assert(file[n - 1].1 != p);
        }
    }
}

proof fn lemma_in_default_rows(overrides: Seq<Entry>, defaults: Seq<Entry>, n: nat, i: int)
    requires
        0 <= i < n <= defaults.len(),
        name_of(overrides, defaults[i].principal) is None,
    ensures
        default_rows(overrides, defaults, n).contains(
            RowView {
                principal: defaults[i].principal,
                name: defaults[i].name,
                source: Source::Default,
                default_name: Some(defaults[i].name),
            },
        ),
    decreases n,
{
    let before = default_rows(overrides, defaults, (n - 1) as nat);
    let now = default_rows(overrides, defaults, n);
    if i < n - 1 {
        lemma_in_default_rows(overrides, defaults, (n - 1) as nat, i);
        let r = RowView {
            principal: defaults[i].principal,
            name: defaults[i].name,
            source: Source::Default,
            default_name: Some(defaults[i].name),
        };
        let x = choose|x: int| 0 <= x < before.len() && before[x] == r;
        assert(now[x] == r);
    } else {
        assert(now[before.len() as int] == RowView {
            principal: defaults[i].principal,
            name: defaults[i].name,
            source: Source::Default,
            default_name: Some(defaults[i].name),
        });
    }
}

/// Every name is listed: what users call a canister with its default beside it, where it has one,
/// and each default of a canister that users call nothing else.
pub proof fn law_all_are_listed(overrides: Seq<Entry>, defaults: Seq<Entry>, i: int, j: int)
    requires
        ordered(overrides),
        ordered(defaults),
    ensures
        0 <= i < overrides.len() && 0 <= j < defaults.len() && overrides[i].principal
            == defaults[j].principal ==> listing(overrides, defaults).contains(
            RowView {
                principal: overrides[i].principal,
                name: overrides[i].name,
                source: Source::Override,
                default_name: Some(defaults[j].name),
            },
        ),
        0 <= i < overrides.len() && (forall|d: int|
            0 <= d < defaults.len() ==> (#[trigger] defaults[d]).principal
                != overrides[i].principal) ==> listing(overrides, defaults).contains(
            RowView {
                principal: overrides[i].principal,
                name: overrides[i].name,
                source: Source::Override,
                default_name: None,
            },
        ),
        0 <= j < defaults.len() && (forall|o: int|
            0 <= o < overrides.len() ==> (#[trigger] overrides[o]).principal
                != defaults[j].principal) ==> listing(overrides, defaults).contains(
            RowView {
                principal: defaults[j].principal,
                name: defaults[j].name,
                source: Source::Default,
                default_name: Some(defaults[j].name),
            },
        ),
{
    let all = listing(overrides, defaults);
    let first = override_rows(overrides, defaults);
    let rest = default_rows(overrides, defaults, defaults.len());
    if 0 <= i < overrides.len() {
        lemma_name_of(defaults, overrides[i].principal);
        assert(all[i] == first[i]);
    }
    if 0 <= j < defaults.len() && (forall|o: int|
        0 <= o < overrides.len() ==> (#[trigger] overrides[o]).principal != defaults[j].principal) {
        lemma_name_of(overrides, defaults[j].principal);
        lemma_in_default_rows(overrides, defaults, defaults.len(), j);
        let r = RowView {
            principal: defaults[j].principal,
            name: defaults[j].name,
            source: Source::Default,
            default_name: Some(defaults[j].name),
        };
        let x = choose|x: int| 0 <= x < rest.len() && rest[x] == r;
        assert(all[first.len() + x] == r);
    }
}

/// A name is what was sent from its first to its last character that is no white space; where there
/// is none, it is refused.
pub proof fn law_name_is_trimmed(sent: Seq<char>, a: int, b: int)
    requires
        0 <= a <= b <= sent.len(),
        forall|k: int| 0 <= k < a ==> is_space(#[trigger] sent[k]),
        forall|k: int| b <= k < sent.len() ==> is_space(#[trigger] sent[k]),
        a < b ==> !is_space(sent[a]) && !is_space(sent[b - 1]),
    ensures
        a < b ==> new_name(sent) == Some(sent.subrange(a, b)),
        a == b ==> new_name(sent) is None,
{
    law_trim(sent, a, b);
}

} // verus!
