//! Workspace identity hydration: which workspace files seed which memory
//! entries, and when a file is stored.

use vstd::prelude::*;
use crate::text::{chars_of, push_str, string_of, trim, trim_chars};

verus! {

/// The memory category an entry is stored under.
#[derive(Debug, Clone, Copy, PartialEq, Eq, Structural)]
pub enum MemoryCategory {
    Core,
    Daily,
}

/// A workspace file and the memory entry it seeds.
#[derive(Debug)]
pub struct IdentityFile {
    pub filename: String,
    pub key: String,
    pub category: MemoryCategory,
    /// Renamed to `<filename>.done` once stored, so it seeds memory once.
    pub one_shot: bool,
}

/// The file → (memory key, category, one-shot) table.
pub open spec fn identity_table() -> Seq<(Seq<char>, Seq<char>, MemoryCategory, bool)> {
    seq![
        ("IDENTITY.md"@, "agent:identity"@, MemoryCategory::Core, false),
        ("SOUL.md"@, "agent:soul"@, MemoryCategory::Core, false),
        ("AGENTS.md"@, "agent:topology"@, MemoryCategory::Core, false),
        ("USER.md"@, "agent:user"@, MemoryCategory::Core, false),
        ("TOOLS.md"@, "agent:tools"@, MemoryCategory::Core, false),
        ("HEARTBEAT.md"@, "agent:heartbeat"@, MemoryCategory::Daily, false),
        ("BOOTSTRAP.md"@, "agent:bootstrap"@, MemoryCategory::Core, true),
    ]
}

/// A table entry as (file name, key, category, one-shot).
pub open spec fn entry_view(f: IdentityFile) -> (Seq<char>, Seq<char>, MemoryCategory, bool) {
    (f.filename@, f.key@, f.category, f.one_shot)
}

/// The category a table entry names: `daily` is daily, anything else core.
pub fn memory_category(name: &str) -> (c: MemoryCategory)
    ensures
        c == if name@ == "daily"@ {
            MemoryCategory::Daily
        } else {
            MemoryCategory::Core
        },
{
    if crate::text::eq_chars(&chars_of(name), &chars_of("daily")) {
        MemoryCategory::Daily
    } else {
        MemoryCategory::Core
    }
}

fn entry(filename: &str, key: &str, category: &str, one_shot: bool) -> (f: IdentityFile)
    ensures
        f.filename@ == filename@,
        f.key@ == key@,
        f.category == if category@ == "daily"@ {
            MemoryCategory::Daily
        } else {
            MemoryCategory::Core
        },
        f.one_shot == one_shot,
{
    IdentityFile {
        filename: filename.to_owned(),
        key: key.to_owned(),
        category: memory_category(category),
        one_shot,
    }
}

/// The identity files, in the order they are hydrated.
pub fn identity_files() -> (v: Vec<IdentityFile>)
    ensures
        v@.map_values(|f: IdentityFile| entry_view(f)) == identity_table(),
{
    proof {
        reveal_strlit("core");
        reveal_strlit("daily");
        assert("core"@[0] != "daily"@[0]);
    }
    let mut v: Vec<IdentityFile> = Vec::new();
    v.push(entry("IDENTITY.md", "agent:identity", "core", false));
    v.push(entry("SOUL.md", "agent:soul", "core", false));
    v.push(entry("AGENTS.md", "agent:topology", "core", false));
    v.push(entry("USER.md", "agent:user", "core", false));
    v.push(entry("TOOLS.md", "agent:tools", "core", false));
    v.push(entry("HEARTBEAT.md", "agent:heartbeat", "daily", false));
    v.push(entry("BOOTSTRAP.md", "agent:bootstrap", "core", true));
    assert(v@.map_values(|f: IdentityFile| entry_view(f)) =~= identity_table());
    v
}

/// The marker a one-shot file is renamed to: `<filename>.done`.
pub fn done_marker(filename: &str) -> (s: String)
    ensures
        s@ == filename@ + ".done"@,
{
    let mut v = chars_of(filename);
    push_str(&mut v, ".done");
    string_of(&v)
}

/// Whether a file is read at all: a one-shot file whose marker exists has
/// been processed already.
pub fn should_read(f: &IdentityFile, done_marker_exists: bool) -> (b: bool)
    ensures
        b == !(f.one_shot && done_marker_exists),
{
    !(f.one_shot && done_marker_exists)
}

/// What is stored for a file's content: the content trimmed, where that is
/// not empty.
pub fn content_to_store(content: &str) -> (r: Option<String>)
    ensures
        match r {
            Some(s) => s@ == trim(content@) && s@.len() > 0,
            None => trim(content@).len() == 0,
        },
{
    let t = trim_chars(&chars_of(content));
    if t.len() == 0 {
        None
    } else {
        Some(string_of(&t))
    }
}

/// What a pass finds of one file before it writes anything.
#[derive(Debug)]
pub struct FileSeen {
    /// Whether `<filename>.done` exists.
    pub marker_exists: bool,
    /// The file's text, where it can be read.
    pub content: Option<String>,
    /// Whether memory already holds the file's key.
    pub in_memory: bool,
}

/// What was found of a file, as (marker exists, text, key in memory).
pub open spec fn seen_view(s: FileSeen) -> (bool, Option<Seq<char>>, bool) {
    (s.marker_exists, match s.content {
        Some(c) => Some(c@),
        None => None,
    }, s.in_memory)
}

/// An entry that a pass stores.
#[derive(Debug)]
pub struct PlannedStore {
    pub filename: String,
    pub key: String,
    /// The file's text, trimmed.
    pub content: String,
    pub category: MemoryCategory,
    /// Whether the file is renamed to its marker once the entry is stored.
    pub rename: bool,
}

/// A store as (file name, key, text, category, rename).
pub open spec fn planned_view(p: PlannedStore) -> (Seq<char>, Seq<char>, Seq<char>, MemoryCategory, bool) {
    (p.filename@, p.key@, p.content@, p.category, p.rename)
}

/// What is stored for table entry `e` given what was found of its file:
/// the trimmed text, unless the file is one-shot and its marker exists,
/// cannot be read, is blank, or its key is already in memory.
pub open spec fn store_of(
    e: (Seq<char>, Seq<char>, MemoryCategory, bool),
    s: (bool, Option<Seq<char>>, bool),
) -> Option<Seq<char>> {
    if e.3 && s.0 {
        None
    } else if s.1 is Some && trim(s.1->0).len() > 0 && !s.2 {
        Some(trim(s.1->0))
    } else {
        None
    }
}

/// The stores of a pass over the entries `es`, in order, as (file name,
/// key, text, category, rename).
pub open spec fn plan_of(
    es: Seq<(Seq<char>, Seq<char>, MemoryCategory, bool)>,
    ss: Seq<(bool, Option<Seq<char>>, bool)>,
) -> Seq<(Seq<char>, Seq<char>, Seq<char>, MemoryCategory, bool)>
    decreases es.len(),
{
    if es.len() == 0 || ss.len() == 0 {
        seq![]
    } else {
        let earlier = plan_of(es.drop_last(), ss.drop_last());
        let e = es.last();
        match store_of(e, ss.last()) {
            Some(c) => earlier.push((e.0, e.1, c, e.2, e.3)),
            None => earlier,
        }
    }
}

/// The entries a hydration pass stores, from what it found of each file.
pub fn plan_hydration(files: &Vec<IdentityFile>, seen: &Vec<FileSeen>) -> (plan: Vec<PlannedStore>)
    requires
        files.len() == seen.len(),
    ensures
        plan@.map_values(|p: PlannedStore| planned_view(p)) == plan_of(
            files@.map_values(|f: IdentityFile| entry_view(f)),
            seen@.map_values(|s: FileSeen| seen_view(s)),
        ),
{
    let ghost es = files@.map_values(|f: IdentityFile| entry_view(f));
    let ghost ss = seen@.map_values(|s: FileSeen| seen_view(s));
    let mut plan: Vec<PlannedStore> = Vec::new();
    let mut i: usize = 0;
    while i < files.len()
        invariant
            i <= files.len() == seen.len(),
            es == files@.map_values(|f: IdentityFile| entry_view(f)),
            ss == seen@.map_values(|s: FileSeen| seen_view(s)),
            plan@.map_values(|p: PlannedStore| planned_view(p)) == plan_of(es.take(i as int), ss.take(i as int)),
        decreases files.len() - i,
    {
        let f = &files[i];
        let s = &seen[i];
        let ghost prev = plan@;
        assert(es.take(i + 1).drop_last() =~= es.take(i as int));
        assert(ss.take(i + 1).drop_last() =~= ss.take(i as int));
        assert(es.take(i + 1).last() == entry_view(*f));
        assert(ss.take(i + 1).last() == seen_view(*s));
        if should_read(f, s.marker_exists) && !s.in_memory {
            match &s.content {
                Some(c) => match content_to_store(c.as_str()) {
                    Some(t) => {
                        plan.push(PlannedStore {
                            filename: f.filename.clone(),
                            key: f.key.clone(),
                            content: t,
                            category: f.category,
                            rename: f.one_shot,
                        });
                        assert(plan@.map_values(|p: PlannedStore| planned_view(p)) =~= prev.map_values(
                            |p: PlannedStore| planned_view(p),
                        ).push(planned_view(plan@.last())));
                    },
                    None => {},
                },
                None => {},
            }
        }
        i += 1;
    }
    assert(es.take(i as int) =~= es);
    assert(ss.take(i as int) =~= ss);
    plan
}

/// What a pass finds of entry `e` in a workspace where the names `names`
/// exist, the files `texts` can be read, and memory holds the keys `mem`.
pub open spec fn observe(
    e: (Seq<char>, Seq<char>, MemoryCategory, bool),
    names: Set<Seq<char>>,
    texts: Map<Seq<char>, Seq<char>>,
    mem: Set<Seq<char>>,
) -> (bool, Option<Seq<char>>, bool) {
    (names.contains(e.0 + ".done"@), if texts.dom().contains(e.0) {
        Some(texts[e.0])
    } else {
        None
    }, mem.contains(e.1))
}

proof fn lemma_plan_empty(
    es: Seq<(Seq<char>, Seq<char>, MemoryCategory, bool)>,
    ss: Seq<(bool, Option<Seq<char>>, bool)>,
)
    requires
        es.len() == ss.len(),
        forall|i: int| 0 <= i < es.len() ==> store_of(#[trigger] es[i], ss[i]) is None,
    ensures
        plan_of(es, ss).len() == 0,
    decreases es.len(),
{
    if es.len() > 0 && ss.len() > 0 {
        let a = es.drop_last();
        let b = ss.drop_last();
        assert forall|i: int| 0 <= i < a.len() implies store_of(#[trigger] a[i], b[i]) is None by {
            assert(a[i] == es[i] && b[i] == ss[i]);
        }
        lemma_plan_empty(a, b);
        assert(store_of(es[es.len() - 1], ss[ss.len() - 1]) is None);
    }
}

/// Hydration is idempotent: after a pass over a workspace whose stores
/// and renames all succeed (every stored key is then in memory, every
/// stored one-shot file is gone and its marker exists, no marker and no
/// key goes away, and every other file reads as before), a second pass
/// stores nothing.
pub proof fn law_hydration_idempotent(
    es: Seq<(Seq<char>, Seq<char>, MemoryCategory, bool)>,
    names: Set<Seq<char>>,
    texts: Map<Seq<char>, Seq<char>>,
    mem: Set<Seq<char>>,
    names2: Set<Seq<char>>,
    texts2: Map<Seq<char>, Seq<char>>,
    mem2: Set<Seq<char>>,
)
    requires
        mem.subset_of(mem2),
        forall|i: int|
            0 <= i < es.len() && names.contains(#[trigger] es[i].0 + ".done"@) ==> names2.contains(
                es[i].0 + ".done"@,
            ),
        forall|i: int|
            0 <= i < es.len() && #[trigger] store_of(es[i], observe(es[i], names, texts, mem)) is Some
                ==> mem2.contains(es[i].1),
        forall|i: int|
            0 <= i < es.len() && es[i].3 && #[trigger] store_of(es[i], observe(es[i], names, texts, mem))
                is Some ==> names2.contains(es[i].0 + ".done"@) && !texts2.dom().contains(es[i].0),
        forall|i: int|
            0 <= i < es.len() && !(es[i].3 && #[trigger] store_of(es[i], observe(es[i], names, texts, mem))
                is Some) ==> (texts2.dom().contains(es[i].0) <==> texts.dom().contains(es[i].0))
                && (texts.dom().contains(es[i].0) ==> texts2[es[i].0] == texts[es[i].0]),
    ensures
        plan_of(es, es.map_values(|e: (Seq<char>, Seq<char>, MemoryCategory, bool)| observe(e, names2, texts2, mem2))).len()
            == 0,
{
    let ss = es.map_values(|e: (Seq<char>, Seq<char>, MemoryCategory, bool)| observe(e, names2, texts2, mem2));
    assert forall|i: int| 0 <= i < es.len() implies store_of(#[trigger] es[i], ss[i]) is None by {
        let e = es[i];
        assert(ss[i] == observe(e, names2, texts2, mem2));
        let before = store_of(e, observe(e, names, texts, mem));
        if before is Some {
            assert(mem2.contains(e.1));
        } else if e.3 && names.contains(e.0 + ".done"@) {
            assert(names2.contains(e.0 + ".done"@));
        } else if mem.contains(e.1) {
            assert(mem2.contains(e.1));
        }
    }
    lemma_plan_empty(es, ss);
}

} // verus!
