//! What the `use` items of a file bind, and what a path names.

use vstd::prelude::*;
use vstd::string::*;

use crate::instrument::reader::{parsed_file, read_file};
use crate::instrument::syntax::{Entry, File, Imported, Ty};
use crate::text::{join, joined, same_text, texts};

verus! {

/// Read Rust source.
pub fn parse_file(src: &str) -> (r: Result<File, String>)
    ensures
        match r {
            Ok(f) => parsed_file(src@) == Ok::<File, Seq<char>>(f),
            Err(m) => parsed_file(src@) == Err::<File, Seq<char>>(m@),
        },
{
    read_file(src)
}

// ---------- Aliases ----------

/// Names that `use` items bind, with the path that each stands for. A name that is bound again
/// stands for the later path.
#[derive(Debug)]
pub struct AliasMap {
    bindings: Vec<(String, String)>,
}

/// The map that the first `n` of `bindings` make.
pub open spec fn bound(bindings: Seq<(Seq<char>, Seq<char>)>, n: nat) -> Map<Seq<char>, Seq<char>>
    decreases n,
{
    if n == 0 || n > bindings.len() {
        Map::empty()
    } else {
        bound(bindings, (n - 1) as nat).insert(bindings[n - 1].0, bindings[n - 1].1)
    }
}

impl View for AliasMap {
    type V = Map<Seq<char>, Seq<char>>;

    closed spec fn view(&self) -> Map<Seq<char>, Seq<char>> {
        bound(self.pairs(), self.bindings@.len())
    }
}

proof fn lemma_bound_prefix(
    a: Seq<(Seq<char>, Seq<char>)>,
    b: Seq<(Seq<char>, Seq<char>)>,
    n: nat,
)
    requires
        n <= a.len(),
        n <= b.len(),
        forall|i: int| 0 <= i < n ==> a[i] == b[i],
    ensures
        bound(a, n) == bound(b, n),
    decreases n,
{
    if n > 0 {
        lemma_bound_prefix(a, b, (n - 1) as nat);
    }
}

impl AliasMap {
    closed spec fn pairs(&self) -> Seq<(Seq<char>, Seq<char>)> {
        Seq::new(self.bindings@.len(), |i: int| (self.bindings@[i].0@, self.bindings@[i].1@))
    }

    /// No names.
    pub fn new() -> (r: AliasMap)
        ensures
            r@ == Map::<Seq<char>, Seq<char>>::empty(),
    {
        AliasMap { bindings: Vec::new() }
    }

    /// Bind `name` to `path`.
    pub fn insert(&mut self, name: String, path: String)
        ensures
            final(self)@ == old(self)@.insert(name@, path@),
    {
        let ghost before = self.pairs();
        self.bindings.push((name, path));
        proof {
            lemma_bound_prefix(before, self.pairs(), before.len());
        }
    }

    /// The path that `name` stands for.
    pub fn get(&self, name: &str) -> (r: Option<&String>)
        ensures
            match r {
                Some(p) => self@.dom().contains(name@) && self@[name@] == p@,
                None => !self@.dom().contains(name@),
            },
    {
        let ghost all = self.pairs();
        let mut i: usize = self.bindings.len();
        while i > 0
            invariant
                i <= self.bindings@.len(),
                all == self.pairs(),
                self@.dom().contains(name@) == bound(all, i as nat).dom().contains(name@),
                self@.dom().contains(name@) ==> self@[name@] == bound(all, i as nat)[name@],
            decreases i,
        {
            i -= 1;
            assert(all[i as int] == (self.bindings@[i as int].0@, self.bindings@[i as int].1@));
            if same_text(self.bindings[i].0.as_str(), name) {
                return Some(&self.bindings[i].1);
            }
        }
        None
    }
}

/// The path to follow that has these segments, written with `::`.
pub open spec fn followed(segments: Seq<Seq<char>>) -> Option<Seq<char>> {
    if segments == seq!["ic_cdk"@, "call"@] {
        Some("ic_cdk::call"@)
    } else if segments == seq!["ic_cdk"@, "api"@, "call"@, "call_with_payment"@] {
        Some("ic_cdk::api::call::call_with_payment"@)
    } else if segments == seq!["ic_cdk"@, "api"@, "call"@, "call_raw"@] {
        Some("ic_cdk::api::call::call_raw"@)
    } else if segments == seq!["ic_cdk"@, "trap"@] {
        Some("ic_cdk::trap"@)
    } else if segments == seq!["ic_cdk"@, "api"@, "trap"@] {
        Some("ic_cdk::api::trap"@)
    } else {
        None
    }
}

fn is_path(segments: &Vec<String>, names: &[&str]) -> (r: bool)
    ensures
        r == (texts(segments@) == strs(names@)),
{
    if segments.len() != names.len() {
        assert(texts(segments@).len() != strs(names@).len());
        return false;
    }
    let mut i: usize = 0;
    while i < segments.len()
        invariant
            i <= segments@.len(),
            segments@.len() == names@.len(),
            forall|k: int| 0 <= k < i ==> texts(segments@)[k] == #[trigger] strs(names@)[k],
        decreases segments@.len() - i,
    {
        if !same_text(segments[i].as_str(), names[i]) {
            assert(texts(segments@)[i as int] != strs(names@)[i as int]);
            return false;
        }
        i += 1;
    }
    assert(texts(segments@) =~= strs(names@));
    true
}

/// The views of a sequence of string slices.
pub open spec fn strs(v: Seq<&str>) -> Seq<Seq<char>> {
    Seq::new(v.len(), |i: int| v[i]@)
}

fn match_tracked(segments: &Vec<String>) -> (r: Option<String>)
    ensures
        match r {
            Some(p) => followed(texts(segments@)) == Some(p@),
            None => followed(texts(segments@)) is None,
        },
{
    let call = ["ic_cdk", "call"];
    let call_with_payment = ["ic_cdk", "api", "call", "call_with_payment"];
    let call_raw = ["ic_cdk", "api", "call", "call_raw"];
    let trap = ["ic_cdk", "trap"];
    let api_trap = ["ic_cdk", "api", "trap"];
    assert(strs(call@) =~= seq!["ic_cdk"@, "call"@]);
    assert(strs(call_with_payment@) =~= seq!["ic_cdk"@, "api"@, "call"@, "call_with_payment"@]);
    assert(strs(call_raw@) =~= seq!["ic_cdk"@, "api"@, "call"@, "call_raw"@]);
    assert(strs(trap@) =~= seq!["ic_cdk"@, "trap"@]);
    assert(strs(api_trap@) =~= seq!["ic_cdk"@, "api"@, "trap"@]);
    if is_path(segments, &call) {
        Some(String::from_str("ic_cdk::call"))
    } else if is_path(segments, &call_with_payment) {
        Some(String::from_str("ic_cdk::api::call::call_with_payment"))
    } else if is_path(segments, &call_raw) {
        Some(String::from_str("ic_cdk::api::call::call_raw"))
    } else if is_path(segments, &trap) {
        Some(String::from_str("ic_cdk::trap"))
    } else if is_path(segments, &api_trap) {
        Some(String::from_str("ic_cdk::api::trap"))
    } else {
        None
    }
}

/// What a name that stands for `path` adds to the map.
pub open spec fn bind(
    map: Map<Seq<char>, Seq<char>>,
    name: Seq<char>,
    path: Seq<Seq<char>>,
) -> Map<Seq<char>, Seq<char>> {
    match followed(path) {
        Some(p) => map.insert(name, p),
        None => map,
    }
}

/// The map with what a `use` under `prefix` binds. What `*` brings in is not followed.
pub open spec fn use_binds(
    tree: Imported,
    prefix: Seq<Seq<char>>,
    map: Map<Seq<char>, Seq<char>>,
) -> Map<Seq<char>, Seq<char>>
    decreases tree, 0nat,
{
    match tree {
        Imported::Path { ident, tree: inner } => use_binds(*inner, prefix.push(ident@), map),
        Imported::Name(ident) => bind(map, ident@, prefix.push(ident@)),
        Imported::Rename { ident, rename } => bind(map, rename@, prefix.push(ident@)),
        Imported::Group(items) => uses_bind(items@, items@.len(), prefix, map),
        Imported::Glob => map,
    }
}

/// The map with what the first `n` parts of a group bind.
pub open spec fn uses_bind(
    items: Seq<Imported>,
    n: nat,
    prefix: Seq<Seq<char>>,
    map: Map<Seq<char>, Seq<char>>,
) -> Map<Seq<char>, Seq<char>>
    decreases items, n,
{
    if n == 0 || n > items.len() {
        map
    } else {
        use_binds(
            items[n - 1],
            prefix,
            uses_bind(items, (n - 1) as nat, prefix, map),
        )
    }
}

/// The map that the first `n` items of a file make.
pub open spec fn items_bind(items: Seq<Entry>, n: nat) -> Map<Seq<char>, Seq<char>>
    decreases n,
{
    if n == 0 || n > items.len() {
        Map::empty()
    } else {
        let before = items_bind(items, (n - 1) as nat);
        match items[n - 1] {
            Entry::Use(tree) => use_binds(tree, Seq::empty(), before),
            _ => before,
        }
    }
}

/// The names that the `use` items of a file bind.
pub open spec fn aliases_of(file: File) -> Map<Seq<char>, Seq<char>> {
    items_bind(file.items@, file.items@.len())
}

fn walk_use(tree: &Imported, prefix: &mut Vec<String>, out: &mut AliasMap)
    ensures
        final(prefix)@ == old(prefix)@,
        final(out)@ == use_binds(*tree, texts(old(prefix)@), old(out)@),
    decreases *tree, 0nat,
{
    let ghost start = prefix@;
    match tree {
        Imported::Path { ident, tree: inner } => {
            prefix.push(ident.clone());
            assert(texts(prefix@) =~= texts(start).push(ident@));
            walk_use(inner, prefix, out);
            prefix.pop();
            assert(prefix@ =~= start);
        },
        Imported::Name(ident) => {
            prefix.push(ident.clone());
            assert(texts(prefix@) =~= texts(start).push(ident@));
            if let Some(path) = match_tracked(prefix) {
                out.insert(ident.clone(), path);
            }
            prefix.pop();
            assert(prefix@ =~= start);
        },
        Imported::Rename { ident, rename } => {
            prefix.push(ident.clone());
            assert(texts(prefix@) =~= texts(start).push(ident@));
            if let Some(path) = match_tracked(prefix) {
                out.insert(rename.clone(), path);
            }
            prefix.pop();
            assert(prefix@ =~= start);
        },
        Imported::Group(items) => {
            walk_group(items, prefix, out);
        },
        Imported::Glob => {},
    }
}

fn walk_group(items: &Vec<Imported>, prefix: &mut Vec<String>, out: &mut AliasMap)
    ensures
        final(prefix)@ == old(prefix)@,
        final(out)@ == uses_bind(items@, items@.len(), texts(old(prefix)@), old(out)@),
    decreases *items, items@.len() + 1,
{
    let ghost map = out@;
    let mut i: usize = 0;
    while i < items.len()
        invariant
            i <= items@.len(),
            prefix@ == old(prefix)@,
            out@ == uses_bind(items@, i as nat, texts(old(prefix)@), map),
        decreases items@.len() - i,
    {
        walk_use(&items[i], prefix, out);
        i += 1;
    }
}

/// The names that the `use` items of a file bind.
pub fn collect_aliases(file: &File) -> (out: AliasMap)
    ensures
        out@ == aliases_of(*file),
{
    let mut out = AliasMap::new();
    let mut i: usize = 0;
    while i < file.items.len()
        invariant
            i <= file.items@.len(),
            out@ == items_bind(file.items@, i as nat),
        decreases file.items@.len() - i,
    {
        if let Entry::Use(tree) = &file.items[i] {
            let mut prefix: Vec<String> = Vec::new();
            assert(texts(prefix@) =~= Seq::<Seq<char>>::empty());
            walk_use(tree, &mut prefix, &mut out);
        }
        i += 1;
    }
    out
}

// ---------- Paths and types ----------

/// Which of `targets` a path names. A path of one segment names what that name is bound to, and
/// nothing otherwise.
pub open spec fn path_target(
    segments: Seq<Seq<char>>,
    aliases: Map<Seq<char>, Seq<char>>,
    targets: Seq<Seq<char>>,
) -> Option<Seq<char>> {
    if segments.len() == 1 {
        if aliases.dom().contains(segments[0]) && targets.contains(aliases[segments[0]]) {
            Some(aliases[segments[0]])
        } else {
            None
        }
    } else {
        let full = joined(segments, "::"@, segments.len());
        if targets.contains(full) {
            Some(full)
        } else {
            None
        }
    }
}

fn is_target(targets: &[&str], path: &str) -> (r: bool)
    ensures
        r == strs(targets@).contains(path@),
{
    let mut i: usize = 0;
    while i < targets.len()
        invariant
            i <= targets@.len(),
            forall|k: int| 0 <= k < i ==> #[trigger] strs(targets@)[k] != path@,
        decreases targets@.len() - i,
    {
        if same_text(targets[i], path) {
            assert(strs(targets@)[i as int] == path@);
            return true;
        }
        i += 1;
    }
    false
}

/// Which of `targets` a path names. A path of one segment names what that name is bound to, and
/// nothing otherwise.
pub fn path_matches(path: &Vec<String>, aliases: &AliasMap, targets: &[&str]) -> (r: Option<String>)
    ensures
        match r {
            Some(p) => path_target(texts(path@), aliases@, strs(targets@)) == Some(p@),
            None => path_target(texts(path@), aliases@, strs(targets@)) is None,
        },
{
    if path.len() == 1 {
        assert(texts(path@)[0] == path@[0]@);
        if let Some(p) = aliases.get(path[0].as_str()) {
            if is_target(targets, p.as_str()) {
                return Some(p.clone());
            }
        }
        return None;
    }
    let full = join(path, "::");
    if is_target(targets, full.as_str()) {
        Some(full)
    } else {
        None
    }
}

/// The type is a path whose last segment is `ident`.
pub open spec fn ends_in(ty: Ty, ident: Seq<char>) -> bool {
    match ty {
        Ty::Path(segments) => segments@.len() > 0 && segments@.last()@ == ident,
        Ty::Other => false,
    }
}

/// Whether the type is a path whose last segment is `ident`, however the path begins.
pub fn type_ends_with(ty: &Ty, ident: &str) -> (r: bool)
    ensures
        r == ends_in(*ty, ident@),
{
    match ty {
        Ty::Path(segments) => segments.len() > 0 && same_text(
            segments[segments.len() - 1].as_str(),
            ident,
        ),
        Ty::Other => false,
    }
}

} // verus!
