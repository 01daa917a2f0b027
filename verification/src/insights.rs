//! Derived analytics over a scanned tree: extension size totals, a
//! biggest-entries leaderboard, small-file-blizzard detection and advisory
//! cleanup-candidate matching. Everything is a whole-subtree aggregation
//! over data a scan already produced.

use std::path::PathBuf;
use vstd::prelude::*;

use crate::order::{
    hits, lemma_contains_add, lemma_ranked_same_elements, lemma_sorted_is_ranked, ranked_by,
    rearranged, sort_desc_stable, stable_descending,
};
use crate::display_tree::DisplayNode;
use crate::scanner::Entry;
use crate::text::{
    contains_str, contains_text, lemma_text_lt_irreflexive, lemma_text_lt_total,
    lemma_text_lt_transitive, lower, lower_char, names_of, occurs_at, same_text, text_less, text_lt, to_ascii_lowercase,
};

verus! {

/// How many direct children a directory must have before it can be
/// considered a small-file blizzard.
pub const BLIZZARD_MIN_CHILDREN: usize = 100;

/// The largest average child size (bytes) a blizzard directory may have.
pub const BLIZZARD_MAX_AVG_SIZE: u64 = 65536;

/// How much confidence the name-only cleanup heuristic can provide. These
/// labels are advisory, never a claim that deleting the entry is safe.
#[derive(Debug, Clone, Copy, PartialEq, Eq, Structural)]
pub enum CleanupConfidence {
    High,
    Medium,
    ContextDependent,
}

impl CleanupConfidence {
    /// The label shown for this confidence level.
    pub fn label(self) -> (text: &'static str)
        ensures
            text == match self {
                CleanupConfidence::High => "High confidence",
                CleanupConfidence::Medium => "Medium confidence",
                CleanupConfidence::ContextDependent => "Context-dependent",
            },
    {
        match self {
            CleanupConfidence::High => "High confidence",
            CleanupConfidence::Medium => "Medium confidence",
            CleanupConfidence::ContextDependent => "Context-dependent",
        }
    }
}

/// Broad kind of cleanup candidate matched by the name-only classifier.
#[derive(Debug, Clone, Copy, PartialEq, Eq, Structural)]
pub enum CleanupCategory {
    DependencyCache,
    BuildOutput,
    BrowserCache,
    Installer,
}

impl CleanupCategory {
    /// The label shown for this category.
    pub fn label(self) -> (text: &'static str)
        ensures
            text == match self {
                CleanupCategory::DependencyCache => "Dependency cache",
                CleanupCategory::BuildOutput => "Build output",
                CleanupCategory::BrowserCache => "Application cache",
                CleanupCategory::Installer => "Installer",
            },
    {
        match self {
            CleanupCategory::DependencyCache => "Dependency cache",
            CleanupCategory::BuildOutput => "Build output",
            CleanupCategory::BrowserCache => "Application cache",
            CleanupCategory::Installer => "Installer",
        }
    }
}

/// Structured explanation for a cleanup-candidate match.
#[derive(Debug, Clone, Copy, PartialEq, Eq)]
pub struct CleanupClassification {
    pub category: CleanupCategory,
    pub reason: &'static str,
    pub confidence: CleanupConfidence,
}

pub const REASON_APP_CACHE: &'static str = "A narrowly recognized application cache that is normally regenerated.";

pub const REASON_PACKAGES: &'static str = "A package dependency directory that can be restored by its package manager.";

pub const REASON_TOOL_CACHE: &'static str = "A tool-managed cache or generated directory that can usually be rebuilt.";

pub const REASON_BUILD_NAME: &'static str = "A generic build/output name; inspect its contents and project usage first.";

pub const REASON_GENERIC_CACHE: &'static str = "A generic cache name whose purpose depends on the parent application.";

pub const REASON_MSI: &'static str = "An installer package that may still be needed for repair or reinstall.";

pub const REASON_SETUP_EXE: &'static str = "An installer-like executable whose purpose should be checked first.";

/// No `f` in `s` is followed by an `e`.
pub open spec fn no_fe(s: Seq<char>) -> bool {
    forall|i: int| 0 <= i && i + 1 < s.len() ==> !(#[trigger] s[i] == 'f' && s[i + 1] == 'e')
}

proof fn lemma_no_fe_no_safe(hay: Seq<char>)
    requires
        no_fe(hay),
    ensures
        !contains_text(hay, "safe"@),
{
    reveal_strlit("safe");
    if contains_text(hay, "safe"@) {
        let at = choose|at: int| occurs_at(hay, "safe"@, at);
        assert(hay.subrange(at, at + 4) == "safe"@);
        let w = hay.subrange(at, at + 4);
        assert(w[2] == 'f' && w[3] == 'e');
        assert(w[2] == hay[at + 2] && w[3] == hay[at + 3]);
        assert(!(hay[at + 2] == 'f' && hay[at + 2 + 1] == 'e'));
    }
}

proof fn lemma_reasons_never_say_safe()
    ensures
        !contains_text(lower(REASON_APP_CACHE@), "safe"@),
        !contains_text(lower(REASON_PACKAGES@), "safe"@),
        !contains_text(lower(REASON_TOOL_CACHE@), "safe"@),
        !contains_text(lower(REASON_BUILD_NAME@), "safe"@),
        !contains_text(lower(REASON_GENERIC_CACHE@), "safe"@),
        !contains_text(lower(REASON_MSI@), "safe"@),
        !contains_text(lower(REASON_SETUP_EXE@), "safe"@),
{
    assert(!contains_text(lower(REASON_APP_CACHE@), "safe"@)) by {
        reveal_strlit("A narrowly recognized application cache that is normally regenerated.");
        assert(no_fe(lower(REASON_APP_CACHE@)));
        lemma_no_fe_no_safe(lower(REASON_APP_CACHE@));
    }
    assert(!contains_text(lower(REASON_PACKAGES@), "safe"@)) by {
        reveal_strlit("A package dependency directory that can be restored by its package manager.");
        assert(no_fe(lower(REASON_PACKAGES@)));
        lemma_no_fe_no_safe(lower(REASON_PACKAGES@));
    }
    assert(!contains_text(lower(REASON_TOOL_CACHE@), "safe"@)) by {
        reveal_strlit("A tool-managed cache or generated directory that can usually be rebuilt.");
        assert(no_fe(lower(REASON_TOOL_CACHE@)));
        lemma_no_fe_no_safe(lower(REASON_TOOL_CACHE@));
    }
    assert(!contains_text(lower(REASON_BUILD_NAME@), "safe"@)) by {
        reveal_strlit("A generic build/output name; inspect its contents and project usage first.");
        assert(no_fe(lower(REASON_BUILD_NAME@)));
        lemma_no_fe_no_safe(lower(REASON_BUILD_NAME@));
    }
    assert(!contains_text(lower(REASON_GENERIC_CACHE@), "safe"@)) by {
        reveal_strlit("A generic cache name whose purpose depends on the parent application.");
        assert(no_fe(lower(REASON_GENERIC_CACHE@)));
        lemma_no_fe_no_safe(lower(REASON_GENERIC_CACHE@));
    }
    assert(!contains_text(lower(REASON_MSI@), "safe"@)) by {
        reveal_strlit("An installer package that may still be needed for repair or reinstall.");
        assert(no_fe(lower(REASON_MSI@)));
        lemma_no_fe_no_safe(lower(REASON_MSI@));
    }
    assert(!contains_text(lower(REASON_SETUP_EXE@), "safe"@)) by {
        reveal_strlit("An installer-like executable whose purpose should be checked first.");
        assert(no_fe(lower(REASON_SETUP_EXE@)));
        lemma_no_fe_no_safe(lower(REASON_SETUP_EXE@));
    }
}

/// The index of the last `c` in `s`, if any.
pub open spec fn last_index_of(s: Seq<char>, c: char) -> Option<int>
    decreases s.len(),
{
    if s.len() == 0 {
        None
    } else if s.last() == c {
        Some(s.len() - 1)
    } else {
        last_index_of(s.drop_last(), c)
    }
}

/// The lowercased extension of a file name: the text after its last dot,
/// when something precedes that dot; `""` otherwise.
pub open spec fn extension_spec(name: Seq<char>) -> Seq<char> {
    match last_index_of(name, '.') {
        Some(i) => if i > 0 {
            lower(name.skip(i + 1))
        } else {
            seq![]
        },
        None => seq![],
    }
}

pub proof fn lemma_last_index_in_range(s: Seq<char>, c: char)
    ensures
        last_index_of(s, c) matches Some(k) ==> 0 <= k < s.len() && s[k] == c,
    decreases s.len(),
{
    if s.len() > 0 && s.last() != c {
        lemma_last_index_in_range(s.drop_last(), c);
    }
}

fn last_dot(s: &str) -> (i: Option<usize>)
    ensures
        match last_index_of(s@, '.') {
            Some(k) => i is Some && i->0 == k,
            None => i is None,
        },
{
    let mut n = s.unicode_len();
    let ghost full = s@;
    assert(full.take(n as int) =~= full);
    while n > 0
        invariant
            n <= full.len(),
            full == s@,
            last_index_of(full, '.') == last_index_of(full.take(n as int), '.'),
        decreases n,
    {
        let ghost t = full.take(n as int);
        if s.get_char(n - 1) == '.' {
            proof {
                assert(t.last() == '.');
            }
            return Some(n - 1);
        }
        proof {
            assert(t.drop_last() =~= full.take(n - 1));
        }
        n -= 1;
    }
    None
}

/// The lowercased extension of a file name, or `""` for extensionless files
/// and dotfiles.
pub fn extension_of(name: &str) -> (ext: String)
    ensures
        ext@ == extension_spec(name@),
{
    proof {
        lemma_last_index_in_range(name@, '.');
    }
    match last_dot(name) {
        Some(i) => {
            if i > 0 {
                let len = name.unicode_len();
                let rest = name.substring_char(i + 1, len);
                proof {
                    assert(rest@ =~= name@.skip(i + 1));
                    assert(extension_spec(name@) == lower(name@.skip(i + 1)));
                }
                let e = to_ascii_lowercase(rest);
                assert(e@ == lower(rest@));
                e
            } else {
                let e = String::new();
                assert(e@ =~= seq![]);
                assert(extension_spec(name@) == Seq::<char>::empty());
                e
            }
        },
        None => {
            let e = String::new();
            assert(e@ =~= seq![]);
            e
        },
    }
}

/// Whether `s` is exactly `t`.
pub open spec fn is(s: Seq<char>, t: &str) -> bool {
    s == t@
}

/// The classification the fixed cleanup ruleset gives a name.
pub open spec fn cleanup_rule(name: Seq<char>, is_dir: bool) -> Option<CleanupClassification> {
    let l = lower(name);
    if is_dir {
        if is(l, "__pycache__") || is(l, ".cache") || is(l, "code cache") || is(l, "gpucache") || is(
            l,
            "shadercache",
        ) {
            Some(
                CleanupClassification {
                    category: CleanupCategory::BrowserCache,
                    reason: REASON_APP_CACHE,
                    confidence: CleanupConfidence::High,
                },
            )
        } else if is(l, "node_modules") {
            Some(
                CleanupClassification {
                    category: CleanupCategory::DependencyCache,
                    reason: REASON_PACKAGES,
                    confidence: CleanupConfidence::Medium,
                },
            )
        } else if is(l, ".gradle") || is(l, ".next") || is(l, ".nuxt") {
            Some(
                CleanupClassification {
                    category: if is(l, ".gradle") {
                        CleanupCategory::DependencyCache
                    } else {
                        CleanupCategory::BuildOutput
                    },
                    reason: REASON_TOOL_CACHE,
                    confidence: CleanupConfidence::Medium,
                },
            )
        } else if is(l, "target") || is(l, "build") || is(l, "dist") || is(l, "out") {
            Some(
                CleanupClassification {
                    category: CleanupCategory::BuildOutput,
                    reason: REASON_BUILD_NAME,
                    confidence: CleanupConfidence::ContextDependent,
                },
            )
        } else if is(l, "cache") {
            Some(
                CleanupClassification {
                    category: CleanupCategory::BrowserCache,
                    reason: REASON_GENERIC_CACHE,
                    confidence: CleanupConfidence::ContextDependent,
                },
            )
        } else {
            None
        }
    } else {
        let ext = extension_spec(name);
        if is(ext, "msi") {
            Some(
                CleanupClassification {
                    category: CleanupCategory::Installer,
                    reason: REASON_MSI,
                    confidence: CleanupConfidence::ContextDependent,
                },
            )
        } else if is(ext, "exe") && (contains_text(l, "setup"@) || contains_text(l, "install"@)) {
            Some(
                CleanupClassification {
                    category: CleanupCategory::Installer,
                    reason: REASON_SETUP_EXE,
                    confidence: CleanupConfidence::ContextDependent,
                },
            )
        } else {
            None
        }
    }
}

proof fn lemma_lower_idempotent(s: Seq<char>)
    ensures
        lower(lower(s)) == lower(s),
{
    assert forall|k: int| 0 <= k < s.len() implies lower_char(lower_char(#[trigger] s[k]))
        == lower_char(s[k]) by {
        let c = s[k];
        if 'A' <= c <= 'Z' {
            assert(((c as u32) + 32) as char >= 'a');
        }
    }
    assert(lower(lower(s)) =~= lower(s));
}

proof fn lemma_last_dot_of_lower(s: Seq<char>)
    ensures
        last_index_of(lower(s), '.') == last_index_of(s, '.'),
    decreases s.len(),
{
    if s.len() > 0 {
        assert(lower(s).drop_last() =~= lower(s.drop_last()));
        assert(lower(s).last() == lower_char(s.last()));
        if 'A' <= s.last() <= 'Z' {
            assert(((s.last() as u32) + 32) as char != '.');
        }
        lemma_last_dot_of_lower(s.drop_last());
    }
}

/// Cleanup labels are advisory: no reason a classification gives, in any
/// letter case, claims that deleting the entry is safe.
pub proof fn law_cleanup_reasons_never_claim_safety(name: Seq<char>, is_dir: bool)
    ensures
        cleanup_rule(name, is_dir) matches Some(c) ==> !contains_text(lower(c.reason@), "safe"@),
{
    lemma_reasons_never_say_safe();
}

/// The cleanup classification ignores ASCII case: a name and its lowercase
/// classify alike. A directory is classified exactly when its lowercase name
/// is one of the recognised cache, dependency or build names; a file
/// exactly when its extension is `msi`, or `exe` with `setup` or `install`
/// in its lowercase name.
pub proof fn law_cleanup_ignores_case(name: Seq<char>, is_dir: bool)
    ensures
        cleanup_rule(name, is_dir) == cleanup_rule(lower(name), is_dir),
        is_dir ==> (cleanup_rule(name, is_dir) is Some <==> {
            let l = lower(name);
            ||| is(l, "__pycache__")
            ||| is(l, ".cache")
            ||| is(l, "code cache")
            ||| is(l, "gpucache")
            ||| is(l, "shadercache")
            ||| is(l, "node_modules")
            ||| is(l, ".gradle")
            ||| is(l, ".next")
            ||| is(l, ".nuxt")
            ||| is(l, "target")
            ||| is(l, "build")
            ||| is(l, "dist")
            ||| is(l, "out")
            ||| is(l, "cache")
        }),
        !is_dir ==> (cleanup_rule(name, is_dir) is Some <==> {
            let ext = extension_spec(name);
            ||| is(ext, "msi")
            ||| is(ext, "exe") && (contains_text(lower(name), "setup"@) || contains_text(
                lower(name),
                "install"@,
            ))
        }),
{
    lemma_lower_idempotent(name);
    lemma_last_dot_of_lower(name);
    match last_index_of(name, '.') {
        Some(i) => {
            if i > 0 {
                lemma_last_index_in_range(name, '.');
                assert(lower(name).skip(i + 1) =~= lower(name.skip(i + 1)));
                lemma_lower_idempotent(name.skip(i + 1));
            }
        },
        None => {},
    }
    assert(extension_spec(lower(name)) == extension_spec(name));
}

/// Classifies a name against the fixed cleanup-candidate ruleset. The result
/// is advisory: a name match cannot establish that deleting an entry is safe.
pub fn classify_cleanup_candidate(name: &str, is_dir: bool) -> (c: Option<CleanupClassification>)
    ensures
        c == cleanup_rule(name@, is_dir),
{
    let lowered = to_ascii_lowercase(name);
    let l = lowered.as_str();
    if is_dir {
        if same_text(l, "__pycache__") || same_text(l, ".cache") || same_text(l, "code cache")
            || same_text(l, "gpucache") || same_text(l, "shadercache") {
            Some(
                CleanupClassification {
                    category: CleanupCategory::BrowserCache,
                    reason: REASON_APP_CACHE,
                    confidence: CleanupConfidence::High,
                },
            )
        } else if same_text(l, "node_modules") {
            Some(
                CleanupClassification {
                    category: CleanupCategory::DependencyCache,
                    reason: REASON_PACKAGES,
                    confidence: CleanupConfidence::Medium,
                },
            )
        } else if same_text(l, ".gradle") || same_text(l, ".next") || same_text(l, ".nuxt") {
            Some(
                CleanupClassification {
                    category: if same_text(l, ".gradle") {
                        CleanupCategory::DependencyCache
                    } else {
                        CleanupCategory::BuildOutput
                    },
                    reason: REASON_TOOL_CACHE,
                    confidence: CleanupConfidence::Medium,
                },
            )
        } else if same_text(l, "target") || same_text(l, "build") || same_text(l, "dist")
            || same_text(l, "out") {
            Some(
                CleanupClassification {
                    category: CleanupCategory::BuildOutput,
                    reason: REASON_BUILD_NAME,
                    confidence: CleanupConfidence::ContextDependent,
                },
            )
        } else if same_text(l, "cache") {
            Some(
                CleanupClassification {
                    category: CleanupCategory::BrowserCache,
                    reason: REASON_GENERIC_CACHE,
                    confidence: CleanupConfidence::ContextDependent,
                },
            )
        } else {
            None
        }
    } else {
        let ext = extension_of(name);
        if same_text(ext.as_str(), "msi") {
            Some(
                CleanupClassification {
                    category: CleanupCategory::Installer,
                    reason: REASON_MSI,
                    confidence: CleanupConfidence::ContextDependent,
                },
            )
        } else if same_text(ext.as_str(), "exe") && (contains_str(l, "setup") || contains_str(
            l,
            "install",
        )) {
            Some(
                CleanupClassification {
                    category: CleanupCategory::Installer,
                    reason: REASON_SETUP_EXE,
                    confidence: CleanupConfidence::ContextDependent,
                },
            )
        } else {
            None
        }
    }
}

/// A minimal borrowed view of one tree node the aggregations walk over.
pub struct InsightNode<'a> {
    pub name: &'a str,
    pub path: &'a PathBuf,
    pub size: u64,
    pub is_dir: bool,
    pub children: Vec<InsightNode<'a>>,
}

/// `v` shows `e`: the same names, paths, sizes and kinds, level by level.
pub open spec fn mirrors(v: InsightNode, e: Entry) -> bool
    decreases e,
{
    &&& v.name@ == e.name@
    &&& *v.path == e.path
    &&& v.size == e.size
    &&& v.is_dir == e.is_dir
    &&& v.children@.len() == e.children@.len()
    &&& forall|k: int|
        0 <= k < e.children@.len() ==> mirrors(v.children@[k], #[trigger] e.children@[k])
}

impl<'a> InsightNode<'a> {
    /// Borrows an [`Entry`] tree into the insight view.
    pub fn from_entry(entry: &'a Entry) -> (view: InsightNode<'a>)
        ensures
            mirrors(view, *entry),
        decreases entry,
    {
        let mut children: Vec<InsightNode<'a>> = Vec::new();
        let n = entry.children.len();
        let mut i: usize = 0;
        while i < n
            invariant
                i <= n,
                n == entry.children@.len(),
                children@.len() == i,
                forall|k: int| 0 <= k < i ==> mirrors(#[trigger] children@[k], entry.children@[k]),
            decreases n - i,
        {
            proof {
                assert(decreases_to!(*entry => entry.children));
                assert(decreases_to!(entry.children => entry.children@));
                assert(decreases_to!(entry.children@ => entry.children@[i as int]));
            }
            children.push(InsightNode::from_entry(&entry.children[i]));
            i += 1;
        }
        InsightNode {
            name: entry.name.as_str(),
            path: &entry.path,
            size: entry.size,
            is_dir: entry.is_dir,
            children,
        }
    }
}

/// `v` shows the display node `d`: the same names, paths, sizes and kinds,
/// level by level.
pub open spec fn mirrors_display(v: InsightNode, d: DisplayNode) -> bool
    decreases d,
{
    &&& v.name@ == d.name@
    &&& *v.path == d.path
    &&& v.size == d.size
    &&& v.is_dir == d.is_dir
    &&& v.children@.len() == d.children@.len()
    &&& forall|k: int|
        0 <= k < d.children@.len() ==> mirrors_display(v.children@[k], #[trigger] d.children@[k])
}

impl<'a> InsightNode<'a> {
    /// Borrows a [`DisplayNode`] tree into the insight view.
    pub fn from_display(node: &'a DisplayNode) -> (view: InsightNode<'a>)
        ensures
            mirrors_display(view, *node),
        decreases node,
    {
        let mut children: Vec<InsightNode<'a>> = Vec::new();
        let n = node.children.len();
        let mut i: usize = 0;
        while i < n
            invariant
                i <= n,
                n == node.children@.len(),
                children@.len() == i,
                forall|k: int|
                    0 <= k < i ==> mirrors_display(#[trigger] children@[k], node.children@[k]),
            decreases n - i,
        {
            proof {
                assert(decreases_to!(*node => node.children));
                assert(decreases_to!(node.children => node.children@));
                assert(decreases_to!(node.children@ => node.children@[i as int]));
            }
            children.push(InsightNode::from_display(&node.children[i]));
            i += 1;
        }
        InsightNode {
            name: node.name.as_str(),
            path: &node.path,
            size: node.size,
            is_dir: node.is_dir,
            children,
        }
    }
}

/// (extension, size) of every file in the subtree, in depth-first order.
pub open spec fn file_list(n: InsightNode) -> Seq<(Seq<char>, u64)>
    decreases n, 1int, 0int,
{
    if n.is_dir {
        child_files(n, n.children@.len() as int)
    } else {
        seq![(extension_spec(n.name@), n.size)]
    }
}

/// The files of the first `k` children of `n`, in order.
pub open spec fn child_files(n: InsightNode, k: int) -> Seq<(Seq<char>, u64)>
    decreases n, 0int, k,
{
    if k <= 0 || k > n.children@.len() {
        seq![]
    } else {
        child_files(n, k - 1) + file_list(n.children@[k - 1])
    }
}

/// Total size of the listed files whose extension is `e`.
pub open spec fn ext_total(f: Seq<(Seq<char>, u64)>, e: Seq<char>) -> nat
    decreases f.len(),
{
    if f.len() == 0 {
        0
    } else {
        ext_total(f.drop_last(), e) + if f.last().0 == e {
            f.last().1 as nat
        } else {
            0
        }
    }
}

/// Total size of all listed files.
pub open spec fn size_sum(f: Seq<(Seq<char>, u64)>) -> nat
    decreases f.len(),
{
    if f.len() == 0 {
        0
    } else {
        size_sum(f.drop_last()) + f.last().1 as nat
    }
}

/// The text views of a list of (text, number) pairs.
pub open spec fn pairs_view(v: Seq<(String, u64)>) -> Seq<(Seq<char>, u64)> {
    v.map_values(|p: (String, u64)| (p.0@, p.1))
}

/// Some entry of `f` has name `e`.
#[verifier::opaque]
pub open spec fn has_name(f: Seq<(Seq<char>, u64)>, e: Seq<char>) -> bool {
    exists|m: int| 0 <= m < f.len() && f[m].0 == e
}

/// `r` lists each extension occurring in `f`, with its total size, and
/// nothing else.
pub open spec fn totals_of(f: Seq<(Seq<char>, u64)>, r: Seq<(Seq<char>, u64)>) -> bool {
    &&& forall|i: int| 0 <= i < r.len() ==> (#[trigger] r[i]).1 == ext_total(f, r[i].0)
    &&& forall|i: int| 0 <= i < r.len() ==> has_name(f, (#[trigger] r[i]).0)
    &&& forall|m: int| 0 <= m < f.len() ==> has_name(r, (#[trigger] f[m]).0)
}

proof fn lemma_has_name_intro(f: Seq<(Seq<char>, u64)>, m: int)
    requires
        0 <= m < f.len(),
    ensures
        has_name(f, f[m].0),
{
    reveal(has_name);
}

proof fn lemma_has_name_elim(f: Seq<(Seq<char>, u64)>, e: Seq<char>) -> (m: int)
    requires
        has_name(f, e),
    ensures
        0 <= m < f.len() && f[m].0 == e,
{
    reveal(has_name);
    choose|m: int| 0 <= m < f.len() && f[m].0 == e
}

proof fn lemma_ext_total_bounded(f: Seq<(Seq<char>, u64)>, e: Seq<char>)
    ensures
        ext_total(f, e) <= size_sum(f),
    decreases f.len(),
{
    if f.len() > 0 {
        lemma_ext_total_bounded(f.drop_last(), e);
    }
}

proof fn lemma_size_sum_prefix(f: Seq<(Seq<char>, u64)>, k: int)
    requires
        0 <= k <= f.len(),
    ensures
        size_sum(f.take(k)) <= size_sum(f),
    decreases f.len() - k,
{
    if k < f.len() {
        lemma_size_sum_prefix(f, k + 1);
        assert(f.take(k + 1).drop_last() =~= f.take(k));
    } else {
        assert(f.take(k) =~= f);
    }
}

fn collect_files(node: &InsightNode, out: &mut Vec<(String, u64)>)
    ensures
        pairs_view(final(out)@) == pairs_view(old(out)@) + file_list(*node),
    decreases node,
{
    if node.is_dir {
        let n = node.children.len();
        let mut k: usize = 0;
        while k < n
            invariant
                k <= n,
                n == node.children@.len(),
                node.is_dir,
                pairs_view(out@) == pairs_view(old(out)@) + child_files(*node, k as int),
            decreases n - k,
        {
            proof {
                assert(decreases_to!(*node => node.children));
                assert(decreases_to!(node.children => node.children@));
                assert(decreases_to!(node.children@ => node.children@[k as int]));
            }
            collect_files(&node.children[k], out);
            k += 1;
            proof {
                assert(pairs_view(out@) =~= pairs_view(old(out)@) + child_files(*node, k as int));
            }
        }
    } else {
        let ghost before = out@;
        out.push((extension_of(node.name), node.size));
        proof {
            assert(pairs_view(out@) =~= pairs_view(before) + file_list(*node));
        }
    }
}

/// Names run in strictly increasing text order.
pub open spec fn names_ascending(t: Seq<(Seq<char>, u64)>) -> bool {
    forall|a: int, b: int| 0 <= a < b < t.len() ==> text_lt(#[trigger] t[a].0, #[trigger] t[b].0)
}

proof fn lemma_ext_total_push(f: Seq<(Seq<char>, u64)>, x: (Seq<char>, u64), e: Seq<char>)
    ensures
        ext_total(f.push(x), e) == ext_total(f, e) + if x.0 == e {
            x.1 as nat
        } else {
            0
        },
{
    assert(f.push(x).drop_last() =~= f);
}

proof fn lemma_tally_merge(
    f: Seq<(Seq<char>, u64)>,
    t: Seq<(Seq<char>, u64)>,
    p: int,
    x: (Seq<char>, u64),
)
    requires
        totals_of(f, t),
        names_ascending(t),
        0 <= p < t.len(),
        t[p].0 == x.0,
        t[p].1 + x.1 <= u64::MAX,
    ensures
        totals_of(f.push(x), t.update(p, (x.0, (t[p].1 + x.1) as u64))),
        names_ascending(t.update(p, (x.0, (t[p].1 + x.1) as u64))),
{
    let f1 = f.push(x);
    let t2 = t.update(p, (x.0, (t[p].1 + x.1) as u64));
    assert forall|i: int| 0 <= i < t2.len() implies (#[trigger] t2[i]).1 == ext_total(f1, t2[i].0) by {
        lemma_ext_total_push(f, x, t2[i].0);
        if i != p {
            lemma_text_lt_irreflexive(t[i].0);
            if i < p {
                assert(text_lt(t[i].0, t[p].0));
            } else {
                assert(text_lt(t[p].0, t[i].0));
            }
            assert(t[i].0 != x.0);
        }
    }
    assert forall|i: int| 0 <= i < t2.len() implies has_name(f1, (#[trigger] t2[i]).0) by {
        let m = lemma_has_name_elim(f, t[i].0);
        assert(f1[m] == f[m]);
        lemma_has_name_intro(f1, m);
    }
    assert forall|m: int| 0 <= m < f1.len() implies has_name(t2, (#[trigger] f1[m]).0) by {
        if m < f.len() {
            assert(f1[m] == f[m]);
            let i = lemma_has_name_elim(t, f[m].0);
            assert(t2[i].0 == t[i].0);
            lemma_has_name_intro(t2, i);
        } else {
            assert(t2[p].0 == f1[m].0);
            lemma_has_name_intro(t2, p);
        }
    }
}

proof fn lemma_tally_insert(
    f: Seq<(Seq<char>, u64)>,
    t: Seq<(Seq<char>, u64)>,
    p: int,
    x: (Seq<char>, u64),
)
    requires
        totals_of(f, t),
        names_ascending(t),
        0 <= p <= t.len(),
        forall|i: int| 0 <= i < p ==> text_lt(#[trigger] t[i].0, x.0),
        p < t.len() ==> text_lt(x.0, t[p].0),
    ensures
        totals_of(f.push(x), t.insert(p, x)),
        names_ascending(t.insert(p, x)),
{
    let f1 = f.push(x);
    let t2 = t.insert(p, x);
    lemma_text_lt_irreflexive(x.0);
    assert forall|i: int| 0 <= i < t.len() implies (#[trigger] t[i]).0 != x.0 by {
        if i >= p {
            if i > p {
                lemma_text_lt_transitive(x.0, t[p].0, t[i].0);
            }
        }
    }
    assert(ext_total(f, x.0) == 0) by {
        lemma_absent_total(f, x.0, t);
    }
    assert forall|i: int| 0 <= i < t2.len() implies (#[trigger] t2[i]).1 == ext_total(f1, t2[i].0) by {
        lemma_ext_total_push(f, x, t2[i].0);
        if i < p {
            assert(t2[i] == t[i]);
        } else if i > p {
            assert(t2[i] == t[i - 1]);
        }
    }
    assert forall|a: int, b: int| 0 <= a < b < t2.len() implies text_lt(
        #[trigger] t2[a].0,
        #[trigger] t2[b].0,
    ) by {
        if a < p && b == p {
        } else if a < p && b > p {
            assert(t2[b] == t[b - 1]);
            lemma_text_lt_transitive(t[a].0, x.0, t[p].0);
            if b - 1 > p {
                lemma_text_lt_transitive(t[a].0, t[p].0, t[b - 1].0);
            }
        } else if a == p {
            assert(t2[b] == t[b - 1]);
            if b - 1 > p {
                lemma_text_lt_transitive(x.0, t[p].0, t[b - 1].0);
            }
        } else if a > p {
            assert(t2[a] == t[a - 1]);
            assert(t2[b] == t[b - 1]);
        } else {
            assert(t2[a] == t[a]);
            assert(t2[b] == t[b]);
        }
    }
    assert forall|i: int| 0 <= i < t2.len() implies has_name(f1, (#[trigger] t2[i]).0) by {
        if i == p {
            assert(f1[f.len() as int].0 == x.0);
            lemma_has_name_intro(f1, f.len() as int);
        } else {
            let j = if i < p {
                i
            } else {
                i - 1
            };
            assert(t2[i] == t[j]);
            let m = lemma_has_name_elim(f, t[j].0);
            assert(f1[m] == f[m]);
            lemma_has_name_intro(f1, m);
        }
    }
    assert forall|m: int| 0 <= m < f1.len() implies has_name(t2, (#[trigger] f1[m]).0) by {
        if m < f.len() {
            assert(f1[m] == f[m]);
            let i = lemma_has_name_elim(t, f[m].0);
            if i < p {
                assert(t2[i].0 == t[i].0);
                lemma_has_name_intro(t2, i);
            } else {
                assert(t2[i + 1].0 == t[i].0);
                lemma_has_name_intro(t2, i + 1);
            }
        } else {
            assert(t2[p].0 == f1[m].0);
            lemma_has_name_intro(t2, p);
        }
    }
}

impl<'a> InsightNode<'a> {
    /// Whether the subtree's file sizes total at most `u64::MAX` bytes, the
    /// bound [`InsightNode::extension_totals`] needs.
    pub fn file_sizes_fit(&self) -> (ok: bool)
        ensures
            ok == (size_sum(file_list(*self)) <= u64::MAX),
    {
        let mut files: Vec<(String, u64)> = Vec::new();
        collect_files(self, &mut files);
        let ghost f = pairs_view(files@);
        proof {
            assert(f =~= file_list(*self));
        }
        let n = files.len();
        let mut total: u64 = 0;
        let mut i: usize = 0;
        while i < n
            invariant
                i <= n,
                n == files@.len(),
                f == pairs_view(files@),
                f == file_list(*self),
                total == size_sum(f.take(i as int)),
            decreases n - i,
        {
            proof {
                assert(f.take(i as int + 1).drop_last() =~= f.take(i as int));
            }
            match total.checked_add(files[i].1) {
                Some(t) => {
                    total = t;
                },
                None => {
                    proof {
                        assert(f.take(i as int + 1).last().1 == files@[i as int].1);
                        lemma_size_sum_prefix(f, i as int + 1);
                    }
                    return false;
                },
            }
            i += 1;
        }
        proof {
            assert(f.take(n as int) =~= f);
        }
        true
    }

    /// Total size per distinct file extension across every file in the
    /// subtree, largest first, ties broken by extension name. Extensions are
    /// lowercased; extensionless files share the `""` entry.
    pub fn extension_totals(&self) -> (totals: Vec<(String, u64)>)
        requires
            size_sum(file_list(*self)) <= u64::MAX,
        ensures
            totals_of(file_list(*self), pairs_view(totals@)),
            largest_first_by_name(pairs_view(totals@)),
    {
        let mut files: Vec<(String, u64)> = Vec::new();
        collect_files(self, &mut files);
        proof {
            assert(pairs_view(files@) =~= file_list(*self));
        }
        let mut table = tally_extensions(&files);
        let ghost before = table@;
        let mut keys: Vec<u64> = Vec::new();
        let n = table.len();
        let mut i: usize = 0;
        while i < n
            invariant
                i <= n,
                n == table@.len(),
                keys@.len() == i,
                forall|j: int| 0 <= j < i ==> keys@[j] == (#[trigger] table@[j]).1,
            decreases n - i,
        {
            keys.push(table[i].1);
            i += 1;
        }
        let ghost keys0 = keys@;
        let perm = sort_desc_stable(&mut table, &mut keys);
        proof {
            assert forall|j: int| 0 <= j < table@.len() implies keys@[j] == (
            #[trigger] table@[j]).1 by {
                assert(table@[j] == before[perm@[j]]);
                assert(keys@[j] == keys0[perm@[j]]);
            }
            lemma_totals_rearranged(pairs_view(files@), before, table@, keys@, perm@);
        }
        table
    }
}

/// Sums file sizes per extension, keeping the table ordered by extension.
fn tally_extensions(files: &Vec<(String, u64)>) -> (table: Vec<(String, u64)>)
    requires
        size_sum(pairs_view(files@)) <= u64::MAX,
    ensures
        totals_of(pairs_view(files@), pairs_view(table@)),
        names_ascending(pairs_view(table@)),
{
    let ghost f = pairs_view(files@);
    let mut acc: Vec<(String, u64)> = Vec::new();
    let n = files.len();
    let mut k: usize = 0;
    while k < n
        invariant
            k <= n,
            n == files@.len(),
            f == pairs_view(files@),
            f.len() == n,
            size_sum(f) <= u64::MAX,
            totals_of(f.take(k as int), pairs_view(acc@)),
            names_ascending(pairs_view(acc@)),
        decreases n - k,
    {
        let ghost t = pairs_view(acc@);
        let ghost fk = f.take(k as int);
        let ghost fk1 = f.take(k + 1);
        let ext = &files[k].0;
        let size = files[k].1;
        proof {
            assert(fk1 =~= fk.push((ext@, size)));
        }
        let len = acc.len();
        let mut p: usize = 0;
        while p < len && text_less(acc[p].0.as_str(), ext.as_str())
            invariant
                p <= len,
                len == acc@.len(),
                t == pairs_view(acc@),
                forall|i: int| 0 <= i < p ==> text_lt(#[trigger] t[i].0, ext@),
            decreases len - p,
        {
            p += 1;
        }
        if p < len && same_text(acc[p].0.as_str(), ext.as_str()) {
            proof {
                lemma_size_sum_prefix(f, k + 1);
                lemma_ext_total_bounded(fk1, ext@);
                lemma_ext_total_push(fk, (ext@, size), ext@);
                lemma_tally_merge(fk, t, p as int, (ext@, size));
            }
            let (name, total) = acc.remove(p);
            acc.insert(p, (name, total + size));
            proof {
                assert(pairs_view(acc@) =~= t.update(p as int, (ext@, (t[p as int].1 + size) as u64)));
            }
        } else {
            proof {
                if p < len {
                    lemma_text_lt_total(t[p as int].0, ext@);
                }
                lemma_tally_insert(fk, t, p as int, (ext@, size));
            }
            acc.insert(p, (ext.clone(), size));
            proof {
                assert(pairs_view(acc@) =~= t.insert(p as int, (ext@, size)));
            }
        }
        k += 1;
    }
    proof {
        assert(f.take(n as int) =~= f);
    }
    acc
}

/// Sizes run largest first, ties in increasing name order.
pub open spec fn largest_first_by_name(r: Seq<(Seq<char>, u64)>) -> bool {
    forall|a: int, b: int|
        0 <= a < b < r.len() ==> (#[trigger] r[a]).1 > (#[trigger] r[b]).1 || (r[a].1 == r[b].1
            && text_lt(r[a].0, r[b].0))
}

proof fn lemma_totals_rearranged(
    f: Seq<(Seq<char>, u64)>,
    t: Seq<(String, u64)>,
    r: Seq<(String, u64)>,
    keys: Seq<u64>,
    p: Seq<int>,
)
    requires
        totals_of(f, pairs_view(t)),
        names_ascending(pairs_view(t)),
        rearranged(t, r, p),
        keys.len() == r.len(),
        forall|i: int| 0 <= i < r.len() ==> keys[i] == (#[trigger] r[i]).1,
        stable_descending(keys, p),
    ensures
        totals_of(f, pairs_view(r)),
        largest_first_by_name(pairs_view(r)),
{
    let tv = pairs_view(t);
    let rv = pairs_view(r);
    assert forall|i: int| 0 <= i < rv.len() implies (#[trigger] rv[i]).1 == ext_total(f, rv[i].0)
        && has_name(f, rv[i].0) by {
        assert(rv[i] == tv[p[i]]);
    }
    assert forall|m: int| 0 <= m < f.len() implies has_name(rv, (#[trigger] f[m]).0) by {
        let j = lemma_has_name_elim(tv, f[m].0);
        assert(hits(p, j));
        let i = choose|i: int| 0 <= i < p.len() && p[i] == j;
        assert(rv[i] == tv[j]);
        lemma_has_name_intro(rv, i);
    }
    assert forall|a: int, b: int| 0 <= a < b < rv.len() implies (#[trigger] rv[a]).1 > (
    #[trigger] rv[b]).1 || (rv[a].1 == rv[b].1 && text_lt(rv[a].0, rv[b].0)) by {
        assert(keys[a] == rv[a].1 && keys[b] == rv[b].1);
        assert(rv[a] == tv[p[a]] && rv[b] == tv[p[b]]);
    }
}

proof fn lemma_absent_total(f: Seq<(Seq<char>, u64)>, e: Seq<char>, t: Seq<(Seq<char>, u64)>)
    requires
        forall|m: int| 0 <= m < f.len() ==> has_name(t, (#[trigger] f[m]).0),
        forall|i: int| 0 <= i < t.len() ==> (#[trigger] t[i]).0 != e,
    ensures
        ext_total(f, e) == 0,
    decreases f.len(),
{
    if f.len() > 0 {
        let g = f.drop_last();
        let i = lemma_has_name_elim(t, f[f.len() - 1].0);
        assert forall|m: int| 0 <= m < g.len() implies has_name(t, (#[trigger] g[m]).0) by {
            assert(g[m] == f[m]);
        }
        lemma_absent_total(g, e, t);
    }
}

/// A single ranked entry in the biggest-files/folders leaderboard.
#[derive(Debug, Clone)]
pub struct LeaderboardEntry {
    pub name: String,
    /// Names from the focus node down to this entry (inclusive).
    pub trail: Vec<String>,
    pub path: PathBuf,
    pub size: u64,
    pub is_dir: bool,
}

/// (name, trail, path, size, is_dir) of a leaderboard entry.
pub open spec fn leader_view(e: LeaderboardEntry) -> (Seq<char>, Seq<Seq<char>>, PathBuf, u64, bool) {
    (e.name@, names_of(e.trail@), e.path, e.size, e.is_dir)
}

pub open spec fn leaders_view(s: Seq<LeaderboardEntry>) -> Seq<
    (Seq<char>, Seq<Seq<char>>, PathBuf, u64, bool),
> {
    s.map_values(|e: LeaderboardEntry| leader_view(e))
}

/// Every node strictly below `n`, in depth-first pre-order, as
/// (name, trail, path, size, is_dir); each trail extends `trail` by the
/// names from `n`'s child down to the node.
pub open spec fn descendants(n: InsightNode, trail: Seq<Seq<char>>) -> Seq<
    (Seq<char>, Seq<Seq<char>>, PathBuf, u64, bool),
>
    decreases n, 1int, 0int,
{
    descendants_upto(n, trail, n.children@.len() as int)
}

/// The nodes below the first `k` children of `n`, each child first.
pub open spec fn descendants_upto(n: InsightNode, trail: Seq<Seq<char>>, k: int) -> Seq<
    (Seq<char>, Seq<Seq<char>>, PathBuf, u64, bool),
>
    decreases n, 0int, k,
{
    if k <= 0 || k > n.children@.len() {
        seq![]
    } else {
        let c = n.children@[k - 1];
        let t = trail.push(c.name@);
        descendants_upto(n, trail, k - 1) + seq![(c.name@, t, *c.path, c.size, c.is_dir)]
            + descendants(c, t)
    }
}

/// A copy of a trail.
fn copy_trail(trail: &Vec<String>) -> (copy: Vec<String>)
    ensures
        copy@ == trail@,
{
    let mut copy: Vec<String> = Vec::new();
    let n = trail.len();
    let mut i: usize = 0;
    while i < n
        invariant
            i <= n,
            n == trail@.len(),
            copy@ == trail@.take(i as int),
        decreases n - i,
    {
        copy.push(trail[i].clone());
        i += 1;
        proof {
            assert(copy@ =~= trail@.take(i as int));
        }
    }
    proof {
        assert(trail@.take(n as int) =~= trail@);
    }
    copy
}

fn walk_leaders(node: &InsightNode, trail: &mut Vec<String>, out: &mut Vec<LeaderboardEntry>)
    ensures
        final(trail)@ == old(trail)@,
        leaders_view(final(out)@) == leaders_view(old(out)@) + descendants(
            *node,
            names_of(old(trail)@),
        ),
    decreases node,
{
    let ghost t0 = names_of(trail@);
    let ghost base = trail@;
    let n = node.children.len();
    let mut k: usize = 0;
    while k < n
        invariant
            k <= n,
            n == node.children@.len(),
            trail@ == base,
            t0 == names_of(base),
            leaders_view(out@) == leaders_view(old(out)@) + descendants_upto(*node, t0, k as int),
        decreases n - k,
    {
        proof {
            assert(decreases_to!(*node => node.children));
            assert(decreases_to!(node.children => node.children@));
            assert(decreases_to!(node.children@ => node.children@[k as int]));
        }
        let child = &node.children[k];
        let ghost before = out@;
        trail.push(child.name.to_owned());
        proof {
            assert(names_of(trail@) =~= t0.push(child.name@));
        }
        out.push(
            LeaderboardEntry {
                name: child.name.to_owned(),
                trail: copy_trail(trail),
                path: child.path.clone(),
                size: child.size,
                is_dir: child.is_dir,
            },
        );
        let ghost mid = out@;
        walk_leaders(child, trail, out);
        trail.pop();
        proof {
            assert(trail@ =~= base);
            let c = node.children@[k as int];
            let t = t0.push(c.name@);
            assert(leaders_view(mid) =~= leaders_view(before).push(
                (c.name@, t, *c.path, c.size, c.is_dir),
            ));
            assert(leaders_view(out@) =~= leaders_view(old(out)@) + descendants_upto(
                *node,
                t0,
                k + 1,
            ));
        }
        k += 1;
    }
}

impl<'a> InsightNode<'a> {
    /// The `n` largest files and folders anywhere in the subtree, ranked by
    /// size (equal sizes keep their depth-first order), each carrying its
    /// trail of names from just below this node down to the entry.
    pub fn leaderboard(&self, n: usize) -> (board: Vec<LeaderboardEntry>)
        ensures
            exists|r: Seq<(Seq<char>, Seq<Seq<char>>, PathBuf, u64, bool)>|
                ranked_by(
                    descendants(*self, seq![]),
                    r,
                    |v: (Seq<char>, Seq<Seq<char>>, PathBuf, u64, bool)| v.3,
                ) && #[trigger] leaders_view(board@) == r.take(
                    if n < r.len() {
                        n as int
                    } else {
                        r.len() as int
                    },
                ),
            forall|x: (Seq<char>, Seq<Seq<char>>, PathBuf, u64, bool)|
                #![trigger leaders_view(board@).contains(x)]
                leaders_view(board@).contains(x) ==> exists|p: Seq<int>|
                    leader_route(*self, seq![], p, x),
            descendants(*self, seq![]).len() <= n ==> forall|p: Seq<int>, x: (Seq<char>, Seq<Seq<char>>, PathBuf, u64, bool)|
                #![trigger leader_route(*self, seq![], p, x)]
                leader_route(*self, seq![], p, x) ==> leaders_view(board@).contains(x),
    {
        let mut out: Vec<LeaderboardEntry> = Vec::new();
        let mut trail: Vec<String> = Vec::new();
        walk_leaders(self, &mut trail, &mut out);
        proof {
            assert(names_of(Seq::<String>::empty()) =~= Seq::<Seq<char>>::empty());
            assert(leaders_view(Seq::<LeaderboardEntry>::empty()) + descendants(*self, seq![])
                =~= descendants(*self, seq![]));
        }
        let mut keys: Vec<u64> = Vec::new();
        let len = out.len();
        let mut i: usize = 0;
        while i < len
            invariant
                i <= len,
                len == out@.len(),
                keys@.len() == i,
                forall|j: int| 0 <= j < i ==> keys@[j] == (#[trigger] out@[j]).size,
            decreases len - i,
        {
            keys.push(out[i].size);
            i += 1;
        }
        let ghost out0 = out@;
        let ghost keys0 = keys@;
        let perm = sort_desc_stable(&mut out, &mut keys);
        let ghost view = |e: LeaderboardEntry| leader_view(e);
        let ghost key = |v: (Seq<char>, Seq<Seq<char>>, PathBuf, u64, bool)| v.3;
        proof {
            lemma_sorted_is_ranked(out0, out@, keys0, keys@, perm@, view, key);
            assert(out0.map_values(view) =~= leaders_view(out0));
        }
        let ghost r = leaders_view(out@);
        proof {
            assert(out@.map_values(view) =~= r);
        }
        out.truncate(n);
        proof {
            let m = if n < r.len() {
                n as int
            } else {
                r.len() as int
            };
            assert(leaders_view(out@) =~= r.take(m));
            law_leaders_are_the_nodes_below(*self);
            assert forall|x: (Seq<char>, Seq<Seq<char>>, PathBuf, u64, bool)|
                descendants(*self, seq![]).contains(x) <==> #[trigger] r.contains(x) by {
                lemma_ranked_same_elements(descendants(*self, seq![]), r, key, x);
            }
            assert forall|x: (Seq<char>, Seq<Seq<char>>, PathBuf, u64, bool)|
                #[trigger] leaders_view(out@).contains(x) implies r.contains(x) by {
                let i = choose|i: int| 0 <= i < leaders_view(out@).len() && leaders_view(out@)[i] == x;
                assert(r[i] == x);
            }
            if descendants(*self, seq![]).len() <= n {
                assert(r.len() == descendants(*self, seq![]).len());
                assert(leaders_view(out@) =~= r);
            }
        }
        out
    }
}

/// A directory flagged as a small-file blizzard: many children, low average
/// child size.
#[derive(Debug, Clone)]
pub struct BlizzardEntry {
    pub name: String,
    pub trail: Vec<String>,
    pub child_count: usize,
    pub avg_child_size: u64,
}

/// (name, trail, child count, average child size) of a blizzard entry.
pub open spec fn blizzard_view(e: BlizzardEntry) -> (Seq<char>, Seq<Seq<char>>, u64, u64) {
    (e.name@, names_of(e.trail@), e.child_count as u64, e.avg_child_size)
}

pub open spec fn blizzards_view(s: Seq<BlizzardEntry>) -> Seq<(Seq<char>, Seq<Seq<char>>, u64, u64)> {
    s.map_values(|e: BlizzardEntry| blizzard_view(e))
}

/// Whether a directory with `count` children totalling `size` bytes is a
/// small-file blizzard.
pub open spec fn is_blizzard(count: nat, size: u64) -> bool {
    count >= BLIZZARD_MIN_CHILDREN && size as nat / count <= BLIZZARD_MAX_AVG_SIZE
}

/// The blizzard directories strictly below `n`, in depth-first pre-order.
/// Only directories are looked into; `n` itself is never flagged.
pub open spec fn blizzards(n: InsightNode, trail: Seq<Seq<char>>) -> Seq<
    (Seq<char>, Seq<Seq<char>>, u64, u64),
>
    decreases n, 1int, 0int,
{
    blizzards_upto(n, trail, n.children@.len() as int)
}

/// The blizzard directories among and below the first `k` children of `n`.
pub open spec fn blizzards_upto(n: InsightNode, trail: Seq<Seq<char>>, k: int) -> Seq<
    (Seq<char>, Seq<Seq<char>>, u64, u64),
>
    decreases n, 0int, k,
{
    if k <= 0 || k > n.children@.len() {
        seq![]
    } else {
        let c = n.children@[k - 1];
        let t = trail.push(c.name@);
        let count = c.children@.len();
        if !c.is_dir {
            blizzards_upto(n, trail, k - 1)
        } else if is_blizzard(count, c.size) {
            blizzards_upto(n, trail, k - 1) + seq![
                (c.name@, t, count as u64, (c.size as nat / count) as u64),
            ] + blizzards(c, t)
        } else {
            blizzards_upto(n, trail, k - 1) + blizzards(c, t)
        }
    }
}

/// The node reached from `n` by following the child positions `p`.
pub open spec fn node_at<'a>(n: InsightNode<'a>, p: Seq<int>) -> InsightNode<'a>
    decreases p.len(),
{
    if p.len() == 0 {
        n
    } else {
        node_at(n.children@[p[0]], p.skip(1))
    }
}

/// The names from `n`'s child down to the node that `p` reaches.
pub open spec fn route_names(n: InsightNode, p: Seq<int>) -> Seq<Seq<char>>
    decreases p.len(),
{
    if p.len() == 0 {
        seq![]
    } else {
        seq![n.children@[p[0]].name@] + route_names(n.children@[p[0]], p.skip(1))
    }
}

/// `p` is a route of child positions from `n` to a node, every node it
/// passes through on the way (not the last) a directory.
pub open spec fn dir_route(n: InsightNode, p: Seq<int>) -> bool
    decreases p.len(),
{
    p.len() == 0 || {
        &&& 0 <= p[0] < n.children@.len()
        &&& (p.len() > 1 ==> n.children@[p[0]].is_dir)
        &&& dir_route(n.children@[p[0]], p.skip(1))
    }
}

/// A directory that is a small-file blizzard.
pub open spec fn crowded(d: InsightNode) -> bool {
    d.is_dir && is_blizzard(d.children@.len(), d.size)
}

/// The flag raised for blizzard directory `d` reached by `trail`.
pub open spec fn flag_for(d: InsightNode, trail: Seq<Seq<char>>) -> (Seq<char>, Seq<Seq<char>>, u64, u64) {
    (d.name@, trail, d.children@.len() as u64, (d.size as nat / d.children@.len() as nat) as u64)
}

/// The routes below `n` that reach a blizzard directory, flagged.
pub open spec fn flagged_route(n: InsightNode, trail: Seq<Seq<char>>, p: Seq<int>, x: (
    Seq<char>,
    Seq<Seq<char>>,
    u64,
    u64,
)) -> bool {
    &&& p.len() > 0
    &&& dir_route(n, p)
    &&& crowded(node_at(n, p))
    &&& x == flag_for(node_at(n, p), trail + route_names(n, p))
}

/// `p` is a route of child positions from `n` to a node.
pub open spec fn any_route(n: InsightNode, p: Seq<int>) -> bool
    decreases p.len(),
{
    p.len() == 0 || (0 <= p[0] < n.children@.len() && any_route(n.children@[p[0]], p.skip(1)))
}

/// `x` describes the node that `p` reaches below `n`: its name, the names
/// leading to it, its own path, size and kind.
pub open spec fn leader_route(n: InsightNode, trail: Seq<Seq<char>>, p: Seq<int>, x: (Seq<char>, Seq<Seq<char>>, PathBuf, u64, bool)) -> bool {
    let d = node_at(n, p);
    &&& p.len() > 0
    &&& any_route(n, p)
    &&& x == (d.name@, trail + route_names(n, p), *d.path, d.size, d.is_dir)
}

/// `p` is a route of child positions from `n` to a node, every node it
/// passes through on the way (not the last) an unmatched directory.
pub open spec fn open_route(n: InsightNode, p: Seq<int>) -> bool
    decreases p.len(),
{
    p.len() == 0 || {
        &&& 0 <= p[0] < n.children@.len()
        &&& (p.len() > 1 ==> n.children@[p[0]].is_dir && cleanup_rule(
            n.children@[p[0]].name@,
            n.children@[p[0]].is_dir,
        ) is None)
        &&& open_route(n.children@[p[0]], p.skip(1))
    }
}

/// `x` is the candidate for the matched node that `p` reaches from `n`
/// with no matched node between them.
pub open spec fn candidate_route(
    n: InsightNode,
    trail: Seq<Seq<char>>,
    p: Seq<int>,
    x: (Seq<char>, Seq<Seq<char>>, PathBuf, bool, u64, CleanupClassification),
) -> bool {
    let d = node_at(n, p);
    &&& p.len() > 0
    &&& open_route(n, p)
    &&& cleanup_rule(d.name@, d.is_dir) matches Some(cl) && x == (
        d.name@,
        trail + route_names(n, p),
        *d.path,
        d.is_dir,
        d.size,
        cl,
    )
}

/// Facts about a route that starts with child `i` of `n`.
proof fn lemma_route_head(n: InsightNode, i: int, q: Seq<int>)
    requires
        0 <= i < n.children@.len(),
    ensures
        node_at(n, seq![i] + q) == node_at(n.children@[i], q),
        route_names(n, seq![i] + q) == seq![n.children@[i].name@] + route_names(n.children@[i], q),
        dir_route(n, seq![i] + q) == ((q.len() > 0 ==> n.children@[i].is_dir) && dir_route(
            n.children@[i],
            q,
        )),
        open_route(n, seq![i] + q) == ((q.len() > 0 ==> n.children@[i].is_dir && cleanup_rule(
            n.children@[i].name@,
            n.children@[i].is_dir,
        ) is None) && open_route(n.children@[i], q)),
        any_route(n, seq![i] + q) == any_route(n.children@[i], q),
{
    assert((seq![i] + q).skip(1) =~= q);
    assert((seq![i] + q)[0] == i);
}

proof fn lemma_blizzards_upto_exact(n: InsightNode, trail: Seq<Seq<char>>, k: int)
    requires
        0 <= k <= n.children@.len(),
    ensures
        forall|p: Seq<int>, x: (Seq<char>, Seq<Seq<char>>, u64, u64)|
            #![trigger flagged_route(n, trail, p, x)]
            flagged_route(n, trail, p, x) && p[0] < k ==> blizzards_upto(n, trail, k).contains(x),
        forall|x: (Seq<char>, Seq<Seq<char>>, u64, u64)|
            #![trigger blizzards_upto(n, trail, k).contains(x)]
            blizzards_upto(n, trail, k).contains(x) ==> exists|p: Seq<int>|
                flagged_route(n, trail, p, x) && p[0] < k,
    decreases n, 0int, k,
{
    if k > 0 {
        lemma_blizzards_upto_exact(n, trail, k - 1);
        let c = n.children@[k - 1];
        let t = trail.push(c.name@);
        let count = c.children@.len();
        let prev = blizzards_upto(n, trail, k - 1);
        let own = seq![(c.name@, t, count as u64, (c.size as nat / count) as u64)];
        lemma_blizzards_exact(c, t);
        let below = blizzards(c, t);
        assert forall|p: Seq<int>, x: (Seq<char>, Seq<Seq<char>>, u64, u64)|
            #![trigger flagged_route(n, trail, p, x)]
            flagged_route(n, trail, p, x) && p[0] < k implies blizzards_upto(n, trail, k).contains(
            x,
        ) by {
            let q = p.skip(1);
            assert(p =~= seq![p[0]] + q);
            lemma_route_head(n, p[0], q);
            if p[0] < k - 1 {
                if !c.is_dir {
                } else if is_blizzard(count, c.size) {
                    lemma_contains_add(prev, own, x);
                    lemma_contains_add(prev + own, below, x);
                } else {
                    lemma_contains_add(prev, below, x);
                }
            } else if q.len() == 0 {
                assert(node_at(n, p) == c);
                assert(route_names(n, p) =~= seq![c.name@]);
                assert(trail + seq![c.name@] =~= t);
                assert(own[0] == x);
                lemma_contains_add(prev, own, x);
                lemma_contains_add(prev + own, below, x);
            } else {
                assert(trail + route_names(n, p) =~= t + route_names(c, q));
                assert(flagged_route(c, t, q, x));
                if is_blizzard(count, c.size) {
                    lemma_contains_add(prev, own, x);
                    lemma_contains_add(prev + own, below, x);
                } else {
                    lemma_contains_add(prev, below, x);
                }
            }
        }
        assert forall|x: (Seq<char>, Seq<Seq<char>>, u64, u64)|
            #![trigger blizzards_upto(n, trail, k).contains(x)]
            blizzards_upto(n, trail, k).contains(x) implies exists|p: Seq<int>|
                flagged_route(n, trail, p, x) && p[0] < k by {
            if c.is_dir && is_blizzard(count, c.size) {
                lemma_contains_add(prev, own, x);
                lemma_contains_add(prev + own, below, x);
            } else if c.is_dir {
                lemma_contains_add(prev, below, x);
            }
            if prev.contains(x) {
                let p = choose|p: Seq<int>| flagged_route(n, trail, p, x) && p[0] < k - 1;
                assert(flagged_route(n, trail, p, x) && p[0] < k);
            } else if c.is_dir && is_blizzard(count, c.size) && own.contains(x) {
                let p = seq![k - 1];
                lemma_route_head(n, k - 1, Seq::<int>::empty());
                assert(seq![k - 1] + Seq::<int>::empty() =~= p);
                assert(trail + seq![c.name@] =~= t);
                assert(flagged_route(n, trail, p, x));
            } else {
                assert(below.contains(x));
                let q = choose|q: Seq<int>| #[trigger] flagged_route(c, t, q, x);
                let p = seq![k - 1] + q;
                lemma_route_head(n, k - 1, q);
                assert(trail + route_names(n, p) =~= t + route_names(c, q));
                assert(flagged_route(n, trail, p, x));
            }
        }
    }
}

/// The blizzard flags below `n`, read off the tree: every directory
/// strictly below `n` (reached through directories) that is a blizzard is
/// flagged, with the names leading to it, and nothing else is.
proof fn lemma_blizzards_exact(n: InsightNode, trail: Seq<Seq<char>>)
    ensures
        forall|p: Seq<int>, x: (Seq<char>, Seq<Seq<char>>, u64, u64)|
            #![trigger flagged_route(n, trail, p, x)]
            flagged_route(n, trail, p, x) ==> blizzards(n, trail).contains(x),
        forall|x: (Seq<char>, Seq<Seq<char>>, u64, u64)|
            #![trigger blizzards(n, trail).contains(x)]
            blizzards(n, trail).contains(x) ==> exists|p: Seq<int>| flagged_route(n, trail, p, x),
    decreases n, 1int, 0int,
{
    let len = n.children@.len() as int;
    lemma_blizzards_upto_exact(n, trail, len);
    assert(blizzards(n, trail) == blizzards_upto(n, trail, len));
    assert forall|x: (Seq<char>, Seq<Seq<char>>, u64, u64)|
        #![trigger blizzards(n, trail).contains(x)]
        blizzards(n, trail).contains(x) implies exists|p: Seq<int>| flagged_route(n, trail, p, x) by {
        assert(blizzards_upto(n, trail, len).contains(x));
        let p = choose|p: Seq<int>| flagged_route(n, trail, p, x) && p[0] < len;
        assert(flagged_route(n, trail, p, x));
    }
}

/// The small-file blizzards found below a node are read off the tree:
/// every directory strictly below it, at any depth (reached through
/// directories), with at least [`BLIZZARD_MIN_CHILDREN`] children and an
/// average child size of at most [`BLIZZARD_MAX_AVG_SIZE`] is flagged with
/// its name, the names leading to it, its child count and its average child
/// size; and every flag is such a directory.
pub proof fn law_blizzards_are_crowded_directories(n: InsightNode)
    ensures
        forall|p: Seq<int>, x: (Seq<char>, Seq<Seq<char>>, u64, u64)|
            #![trigger flagged_route(n, seq![], p, x)]
            flagged_route(n, seq![], p, x) ==> blizzards(n, seq![]).contains(x),
        forall|x: (Seq<char>, Seq<Seq<char>>, u64, u64)|
            #![trigger blizzards(n, seq![]).contains(x)]
            blizzards(n, seq![]).contains(x) ==> exists|p: Seq<int>| flagged_route(n, seq![], p, x),
{
    lemma_blizzards_exact(n, seq![]);
}

proof fn lemma_descendants_upto_exact(n: InsightNode, trail: Seq<Seq<char>>, k: int)
    requires
        0 <= k <= n.children@.len(),
    ensures
        forall|p: Seq<int>, x: (Seq<char>, Seq<Seq<char>>, PathBuf, u64, bool)|
            #![trigger leader_route(n, trail, p, x)]
            leader_route(n, trail, p, x) && p[0] < k ==> descendants_upto(n, trail, k).contains(x),
        forall|x: (Seq<char>, Seq<Seq<char>>, PathBuf, u64, bool)|
            #![trigger descendants_upto(n, trail, k).contains(x)]
            descendants_upto(n, trail, k).contains(x) ==> exists|p: Seq<int>|
                leader_route(n, trail, p, x) && p[0] < k,
    decreases n, 0int, k,
{
    if k > 0 {
        lemma_descendants_upto_exact(n, trail, k - 1);
        let c = n.children@[k - 1];
        let t = trail.push(c.name@);
        let prev = descendants_upto(n, trail, k - 1);
        let own = seq![(c.name@, t, *c.path, c.size, c.is_dir)];
        lemma_descendants_exact(c, t);
        let below = descendants(c, t);
        assert forall|p: Seq<int>, x: (Seq<char>, Seq<Seq<char>>, PathBuf, u64, bool)|
            #![trigger leader_route(n, trail, p, x)]
            leader_route(n, trail, p, x) && p[0] < k implies descendants_upto(n, trail, k).contains(
            x,
        ) by {
            let q = p.skip(1);
            assert(p =~= seq![p[0]] + q);
            lemma_route_head(n, p[0], q);
            lemma_contains_add(prev, own, x);
            lemma_contains_add(prev + own, below, x);
            if p[0] == k - 1 {
                if q.len() == 0 {
                    assert(node_at(n, p) == c);
                    assert(route_names(n, p) =~= seq![c.name@]);
                    assert(trail + seq![c.name@] =~= t);
                    assert(own[0] == x);
                } else {
                    assert(trail + route_names(n, p) =~= t + route_names(c, q));
                    assert(leader_route(c, t, q, x));
                }
            }
        }
        assert forall|x: (Seq<char>, Seq<Seq<char>>, PathBuf, u64, bool)|
            #![trigger descendants_upto(n, trail, k).contains(x)]
            descendants_upto(n, trail, k).contains(x) implies exists|p: Seq<int>|
                leader_route(n, trail, p, x) && p[0] < k by {
            lemma_contains_add(prev, own, x);
            lemma_contains_add(prev + own, below, x);
            if prev.contains(x) {
                let p = choose|p: Seq<int>| leader_route(n, trail, p, x) && p[0] < k - 1;
                assert(leader_route(n, trail, p, x) && p[0] < k);
            } else if own.contains(x) {
                let p = seq![k - 1];
                lemma_route_head(n, k - 1, Seq::<int>::empty());
                assert(seq![k - 1] + Seq::<int>::empty() =~= p);
                assert(trail + seq![c.name@] =~= t);
                assert(leader_route(n, trail, p, x));
            } else {
                let q = choose|q: Seq<int>| #[trigger] leader_route(c, t, q, x);
                let p = seq![k - 1] + q;
                lemma_route_head(n, k - 1, q);
                assert(trail + route_names(n, p) =~= t + route_names(c, q));
                assert(leader_route(n, trail, p, x));
            }
        }
    }
}

proof fn lemma_descendants_exact(n: InsightNode, trail: Seq<Seq<char>>)
    ensures
        forall|p: Seq<int>, x: (Seq<char>, Seq<Seq<char>>, PathBuf, u64, bool)|
            #![trigger leader_route(n, trail, p, x)]
            leader_route(n, trail, p, x) ==> descendants(n, trail).contains(x),
        forall|x: (Seq<char>, Seq<Seq<char>>, PathBuf, u64, bool)|
            #![trigger descendants(n, trail).contains(x)]
            descendants(n, trail).contains(x) ==> exists|p: Seq<int>| leader_route(n, trail, p, x),
    decreases n, 1int, 0int,
{
    let len = n.children@.len() as int;
    lemma_descendants_upto_exact(n, trail, len);
    assert(descendants(n, trail) == descendants_upto(n, trail, len));
    assert forall|x: (Seq<char>, Seq<Seq<char>>, PathBuf, u64, bool)|
        #![trigger descendants(n, trail).contains(x)]
        descendants(n, trail).contains(x) implies exists|p: Seq<int>| leader_route(n, trail, p, x) by {
        assert(descendants_upto(n, trail, len).contains(x));
        let p = choose|p: Seq<int>| leader_route(n, trail, p, x) && p[0] < len;
        assert(leader_route(n, trail, p, x));
    }
}

/// The nodes the leaderboard ranks are read off the tree: every node
/// strictly below the focus, with its own name, the names leading to it,
/// its own path, size and kind; and nothing else.
pub proof fn law_leaders_are_the_nodes_below(n: InsightNode)
    ensures
        forall|p: Seq<int>, x: (Seq<char>, Seq<Seq<char>>, PathBuf, u64, bool)|
            #![trigger leader_route(n, seq![], p, x)]
            leader_route(n, seq![], p, x) ==> descendants(n, seq![]).contains(x),
        forall|x: (Seq<char>, Seq<Seq<char>>, PathBuf, u64, bool)|
            #![trigger descendants(n, seq![]).contains(x)]
            descendants(n, seq![]).contains(x) ==> exists|p: Seq<int>| leader_route(n, seq![], p, x),
{
    lemma_descendants_exact(n, seq![]);
}

fn walk_blizzards(node: &InsightNode, trail: &mut Vec<String>, out: &mut Vec<BlizzardEntry>)
    ensures
        final(trail)@ == old(trail)@,
        blizzards_view(final(out)@) == blizzards_view(old(out)@) + blizzards(
            *node,
            names_of(old(trail)@),
        ),
    decreases node,
{
    let ghost t0 = names_of(trail@);
    let ghost base = trail@;
    let n = node.children.len();
    let mut k: usize = 0;
    while k < n
        invariant
            k <= n,
            n == node.children@.len(),
            trail@ == base,
            t0 == names_of(base),
            blizzards_view(out@) == blizzards_view(old(out)@) + blizzards_upto(*node, t0, k as int),
        decreases n - k,
    {
        proof {
            assert(decreases_to!(*node => node.children));
            assert(decreases_to!(node.children => node.children@));
            assert(decreases_to!(node.children@ => node.children@[k as int]));
        }
        let child = &node.children[k];
        let ghost before = out@;
        if child.is_dir {
            trail.push(child.name.to_owned());
            proof {
                assert(names_of(trail@) =~= t0.push(child.name@));
            }
            let count = child.children.len();
            if count >= BLIZZARD_MIN_CHILDREN {
                let avg = child.size / count as u64;
                if avg <= BLIZZARD_MAX_AVG_SIZE {
                    out.push(
                        BlizzardEntry {
                            name: child.name.to_owned(),
                            trail: copy_trail(trail),
                            child_count: count,
                            avg_child_size: avg,
                        },
                    );
                }
            }
            let ghost mid = out@;
            walk_blizzards(child, trail, out);
            trail.pop();
            proof {
                let c = node.children@[k as int];
                let t = t0.push(c.name@);
                let cnt = c.children@.len();
                if is_blizzard(cnt, c.size) {
                    assert(blizzards_view(mid) =~= blizzards_view(before).push(
                        (c.name@, t, cnt as u64, (c.size as nat / cnt) as u64),
                    ));
                } else {
                    assert(mid == before);
                }
                assert(trail@ =~= base);
            }
        }
        proof {
            assert(blizzards_view(out@) =~= blizzards_view(old(out)@) + blizzards_upto(
                *node,
                t0,
                k + 1,
            ));
        }
        k += 1;
    }
}

/// A file or directory whose name matches a cleanup-candidate pattern.
#[derive(Debug, Clone)]
pub struct CleanupCandidate {
    pub name: String,
    pub trail: Vec<String>,
    pub path: PathBuf,
    pub is_dir: bool,
    pub size: u64,
    pub classification: CleanupClassification,
}

/// (name, trail, path, is_dir, size, classification) of a candidate.
pub open spec fn candidate_view(e: CleanupCandidate) -> (
    Seq<char>,
    Seq<Seq<char>>,
    PathBuf,
    bool,
    u64,
    CleanupClassification,
) {
    (e.name@, names_of(e.trail@), e.path, e.is_dir, e.size, e.classification)
}

pub open spec fn candidates_view(s: Seq<CleanupCandidate>) -> Seq<
    (Seq<char>, Seq<Seq<char>>, PathBuf, bool, u64, CleanupClassification),
> {
    s.map_values(|e: CleanupCandidate| candidate_view(e))
}

/// The cleanup candidates strictly below `n`, in depth-first pre-order. A
/// matched directory stands for everything beneath it and is not looked
/// into; an unmatched directory is.
pub open spec fn candidates(n: InsightNode, trail: Seq<Seq<char>>) -> Seq<
    (Seq<char>, Seq<Seq<char>>, PathBuf, bool, u64, CleanupClassification),
>
    decreases n, 1int, 0int,
{
    candidates_upto(n, trail, n.children@.len() as int)
}

/// The cleanup candidates among and below the first `k` children of `n`.
pub open spec fn candidates_upto(n: InsightNode, trail: Seq<Seq<char>>, k: int) -> Seq<
    (Seq<char>, Seq<Seq<char>>, PathBuf, bool, u64, CleanupClassification),
>
    decreases n, 0int, k,
{
    if k <= 0 || k > n.children@.len() {
        seq![]
    } else {
        let c = n.children@[k - 1];
        let t = trail.push(c.name@);
        match cleanup_rule(c.name@, c.is_dir) {
            Some(cl) => candidates_upto(n, trail, k - 1) + seq![
                (c.name@, t, *c.path, c.is_dir, c.size, cl),
            ],
            None => if c.is_dir {
                candidates_upto(n, trail, k - 1) + candidates(c, t)
            } else {
                candidates_upto(n, trail, k - 1)
            },
        }
    }
}

proof fn lemma_candidates_upto_exact(n: InsightNode, trail: Seq<Seq<char>>, k: int)
    requires
        0 <= k <= n.children@.len(),
    ensures
        forall|p: Seq<int>, x: (Seq<char>, Seq<Seq<char>>, PathBuf, bool, u64, CleanupClassification)|
            #![trigger candidate_route(n, trail, p, x)]
            candidate_route(n, trail, p, x) && p[0] < k ==> candidates_upto(n, trail, k).contains(x),
        forall|x: (Seq<char>, Seq<Seq<char>>, PathBuf, bool, u64, CleanupClassification)|
            #![trigger candidates_upto(n, trail, k).contains(x)]
            candidates_upto(n, trail, k).contains(x) ==> exists|p: Seq<int>|
                candidate_route(n, trail, p, x) && p[0] < k,
    decreases n, 0int, k,
{
    if k > 0 {
        lemma_candidates_upto_exact(n, trail, k - 1);
        let c = n.children@[k - 1];
        let t = trail.push(c.name@);
        let prev = candidates_upto(n, trail, k - 1);
        lemma_candidates_exact(c, t);
        let below = candidates(c, t);
        assert forall|p: Seq<int>, x: (Seq<char>, Seq<Seq<char>>, PathBuf, bool, u64, CleanupClassification)|
            #![trigger candidate_route(n, trail, p, x)]
            candidate_route(n, trail, p, x) && p[0] < k implies candidates_upto(n, trail, k).contains(
            x,
        ) by {
            let q = p.skip(1);
            assert(p =~= seq![p[0]] + q);
            lemma_route_head(n, p[0], q);
            if p[0] < k - 1 {
                match cleanup_rule(c.name@, c.is_dir) {
                    Some(cl) => {
                        lemma_contains_add(prev, seq![(c.name@, t, *c.path, c.is_dir, c.size, cl)], x);
                    },
                    None => {
                        if c.is_dir {
                            lemma_contains_add(prev, below, x);
                        }
                    },
                }
            } else if q.len() == 0 {
                assert(node_at(n, p) == c);
                assert(route_names(n, p) =~= seq![c.name@]);
                assert(trail + seq![c.name@] =~= t);
                let cl = cleanup_rule(c.name@, c.is_dir)->0;
                let own = seq![(c.name@, t, *c.path, c.is_dir, c.size, cl)];
                assert(own[0] == x);
                lemma_contains_add(prev, own, x);
            } else {
                assert(trail + route_names(n, p) =~= t + route_names(c, q));
                assert(candidate_route(c, t, q, x));
                lemma_contains_add(prev, below, x);
            }
        }
        assert forall|x: (Seq<char>, Seq<Seq<char>>, PathBuf, bool, u64, CleanupClassification)|
            #![trigger candidates_upto(n, trail, k).contains(x)]
            candidates_upto(n, trail, k).contains(x) implies exists|p: Seq<int>|
                candidate_route(n, trail, p, x) && p[0] < k by {
            match cleanup_rule(c.name@, c.is_dir) {
                Some(cl) => {
                    let own = seq![(c.name@, t, *c.path, c.is_dir, c.size, cl)];
                    lemma_contains_add(prev, own, x);
                    if prev.contains(x) {
                        let p = choose|p: Seq<int>| candidate_route(n, trail, p, x) && p[0] < k - 1;
                        assert(candidate_route(n, trail, p, x) && p[0] < k);
                    } else {
                        let p = seq![k - 1];
                        lemma_route_head(n, k - 1, Seq::<int>::empty());
                        assert(seq![k - 1] + Seq::<int>::empty() =~= p);
                        assert(trail + seq![c.name@] =~= t);
                        assert(candidate_route(n, trail, p, x));
                    }
                },
                None => {
                    if c.is_dir {
                        lemma_contains_add(prev, below, x);
                    }
                    if prev.contains(x) {
                        let p = choose|p: Seq<int>| candidate_route(n, trail, p, x) && p[0] < k - 1;
                        assert(candidate_route(n, trail, p, x) && p[0] < k);
                    } else {
                        assert(below.contains(x));
                        let q = choose|q: Seq<int>| #[trigger] candidate_route(c, t, q, x);
                        let p = seq![k - 1] + q;
                        lemma_route_head(n, k - 1, q);
                        assert(trail + route_names(n, p) =~= t + route_names(c, q));
                        assert(candidate_route(n, trail, p, x));
                    }
                },
            }
        }
    }
}

proof fn lemma_candidates_exact(n: InsightNode, trail: Seq<Seq<char>>)
    ensures
        forall|p: Seq<int>, x: (Seq<char>, Seq<Seq<char>>, PathBuf, bool, u64, CleanupClassification)|
            #![trigger candidate_route(n, trail, p, x)]
            candidate_route(n, trail, p, x) ==> candidates(n, trail).contains(x),
        forall|x: (Seq<char>, Seq<Seq<char>>, PathBuf, bool, u64, CleanupClassification)|
            #![trigger candidates(n, trail).contains(x)]
            candidates(n, trail).contains(x) ==> exists|p: Seq<int>| candidate_route(n, trail, p, x),
    decreases n, 1int, 0int,
{
    let len = n.children@.len() as int;
    lemma_candidates_upto_exact(n, trail, len);
    assert(candidates(n, trail) == candidates_upto(n, trail, len));
    assert forall|x: (Seq<char>, Seq<Seq<char>>, PathBuf, bool, u64, CleanupClassification)|
        #![trigger candidates(n, trail).contains(x)]
        candidates(n, trail).contains(x) implies exists|p: Seq<int>| candidate_route(n, trail, p, x) by {
        assert(candidates_upto(n, trail, len).contains(x));
        let p = choose|p: Seq<int>| candidate_route(n, trail, p, x) && p[0] < len;
        assert(candidate_route(n, trail, p, x));
    }
}

/// The cleanup candidates found below a node are read off the tree: every
/// node strictly below it that the cleanup rules match, and that is reached
/// only through unmatched directories, is a candidate with its name, the
/// names leading to it, its path, kind, size and classification; and every
/// candidate is such a node.
pub proof fn law_candidates_are_the_outermost_matches(n: InsightNode)
    ensures
        forall|p: Seq<int>, x: (Seq<char>, Seq<Seq<char>>, PathBuf, bool, u64, CleanupClassification)|
            #![trigger candidate_route(n, seq![], p, x)]
            candidate_route(n, seq![], p, x) ==> candidates(n, seq![]).contains(x),
        forall|x: (Seq<char>, Seq<Seq<char>>, PathBuf, bool, u64, CleanupClassification)|
            #![trigger candidates(n, seq![]).contains(x)]
            candidates(n, seq![]).contains(x) ==> exists|p: Seq<int>| candidate_route(n, seq![], p, x),
{
    lemma_candidates_exact(n, seq![]);
}

fn walk_candidates(node: &InsightNode, trail: &mut Vec<String>, out: &mut Vec<CleanupCandidate>)
    ensures
        final(trail)@ == old(trail)@,
        candidates_view(final(out)@) == candidates_view(old(out)@) + candidates(
            *node,
            names_of(old(trail)@),
        ),
    decreases node,
{
    let ghost t0 = names_of(trail@);
    let ghost base = trail@;
    let n = node.children.len();
    let mut k: usize = 0;
    while k < n
        invariant
            k <= n,
            n == node.children@.len(),
            trail@ == base,
            t0 == names_of(base),
            candidates_view(out@) == candidates_view(old(out)@) + candidates_upto(
                *node,
                t0,
                k as int,
            ),
        decreases n - k,
    {
        proof {
            assert(decreases_to!(*node => node.children));
            assert(decreases_to!(node.children => node.children@));
            assert(decreases_to!(node.children@ => node.children@[k as int]));
        }
        let child = &node.children[k];
        let ghost before = out@;
        trail.push(child.name.to_owned());
        proof {
            assert(names_of(trail@) =~= t0.push(child.name@));
        }
        match classify_cleanup_candidate(child.name, child.is_dir) {
            Some(classification) => {
                out.push(
                    CleanupCandidate {
                        name: child.name.to_owned(),
                        trail: copy_trail(trail),
                        path: child.path.clone(),
                        is_dir: child.is_dir,
                        size: child.size,
                        classification,
                    },
                );
                proof {
                    let c = node.children@[k as int];
                    assert(candidates_view(out@) =~= candidates_view(before).push(
                        (c.name@, t0.push(c.name@), *c.path, c.is_dir, c.size, classification),
                    ));
                }
            },
            None => {
                if child.is_dir {
                    walk_candidates(child, trail, out);
                }
            },
        }
        trail.pop();
        proof {
            assert(trail@ =~= base);
            assert(candidates_view(out@) =~= candidates_view(old(out)@) + candidates_upto(
                *node,
                t0,
                k + 1,
            ));
        }
        k += 1;
    }
}

impl<'a> InsightNode<'a> {
    /// Directories below this node with at least [`BLIZZARD_MIN_CHILDREN`]
    /// children and an average child size of at most
    /// [`BLIZZARD_MAX_AVG_SIZE`], most children first (equal counts keep
    /// their depth-first order). This node itself is never flagged.
    pub fn blizzard_flags(&self) -> (flags: Vec<BlizzardEntry>)
        ensures
            ranked_by(
                blizzards(*self, seq![]),
                blizzards_view(flags@),
                |v: (Seq<char>, Seq<Seq<char>>, u64, u64)| v.2,
            ),
            forall|p: Seq<int>, x: (Seq<char>, Seq<Seq<char>>, u64, u64)|
                #![trigger flagged_route(*self, seq![], p, x)]
                flagged_route(*self, seq![], p, x) ==> blizzards_view(flags@).contains(x),
            forall|x: (Seq<char>, Seq<Seq<char>>, u64, u64)|
                #![trigger blizzards_view(flags@).contains(x)]
                blizzards_view(flags@).contains(x) ==> exists|p: Seq<int>|
                    flagged_route(*self, seq![], p, x),
    {
        let mut out: Vec<BlizzardEntry> = Vec::new();
        let mut trail: Vec<String> = Vec::new();
        walk_blizzards(self, &mut trail, &mut out);
        proof {
            assert(names_of(Seq::<String>::empty()) =~= Seq::<Seq<char>>::empty());
            assert(blizzards_view(Seq::<BlizzardEntry>::empty()) + blizzards(*self, seq![])
                =~= blizzards(*self, seq![]));
        }
        let mut keys: Vec<u64> = Vec::new();
        let len = out.len();
        let mut i: usize = 0;
        while i < len
            invariant
                i <= len,
                len == out@.len(),
                keys@.len() == i,
                forall|j: int| 0 <= j < i ==> keys@[j] == (#[trigger] out@[j]).child_count as u64,
            decreases len - i,
        {
            keys.push(out[i].child_count as u64);
            i += 1;
        }
        let ghost out0 = out@;
        let ghost keys0 = keys@;
        let perm = sort_desc_stable(&mut out, &mut keys);
        let ghost view = |e: BlizzardEntry| blizzard_view(e);
        let ghost key = |v: (Seq<char>, Seq<Seq<char>>, u64, u64)| v.2;
        proof {
            lemma_sorted_is_ranked(out0, out@, keys0, keys@, perm@, view, key);
            assert(out0.map_values(view) =~= blizzards_view(out0));
            assert(out@.map_values(view) =~= blizzards_view(out@));
            law_blizzards_are_crowded_directories(*self);
            assert forall|x: (Seq<char>, Seq<Seq<char>>, u64, u64)|
                blizzards(*self, seq![]).contains(x) <==> #[trigger] blizzards_view(
                    out@,
                ).contains(x) by {
                lemma_ranked_same_elements(blizzards(*self, seq![]), blizzards_view(out@), key, x);
            }
        }
        out
    }

    /// Files and directories below this node whose names match the cleanup
    /// ruleset ([`classify_cleanup_candidate`]), largest first (equal sizes
    /// keep their depth-first order). A matched directory is not looked
    /// into: it stands for everything beneath it.
    pub fn cleanup_candidates(&self) -> (found: Vec<CleanupCandidate>)
        ensures
            ranked_by(
                candidates(*self, seq![]),
                candidates_view(found@),
                |v: (Seq<char>, Seq<Seq<char>>, PathBuf, bool, u64, CleanupClassification)| v.4,
            ),
            forall|p: Seq<int>, x: (Seq<char>, Seq<Seq<char>>, PathBuf, bool, u64, CleanupClassification)|
                #![trigger candidate_route(*self, seq![], p, x)]
                candidate_route(*self, seq![], p, x) ==> candidates_view(found@).contains(x),
            forall|x: (Seq<char>, Seq<Seq<char>>, PathBuf, bool, u64, CleanupClassification)|
                #![trigger candidates_view(found@).contains(x)]
                candidates_view(found@).contains(x) ==> exists|p: Seq<int>|
                    candidate_route(*self, seq![], p, x),
    {
        let mut out: Vec<CleanupCandidate> = Vec::new();
        let mut trail: Vec<String> = Vec::new();
        walk_candidates(self, &mut trail, &mut out);
        proof {
            assert(names_of(Seq::<String>::empty()) =~= Seq::<Seq<char>>::empty());
            assert(candidates_view(Seq::<CleanupCandidate>::empty()) + candidates(*self, seq![])
                =~= candidates(*self, seq![]));
        }
        let mut keys: Vec<u64> = Vec::new();
        let len = out.len();
        let mut i: usize = 0;
        while i < len
            invariant
                i <= len,
                len == out@.len(),
                keys@.len() == i,
                forall|j: int| 0 <= j < i ==> keys@[j] == (#[trigger] out@[j]).size,
            decreases len - i,
        {
            keys.push(out[i].size);
            i += 1;
        }
        let ghost out0 = out@;
        let ghost keys0 = keys@;
        let perm = sort_desc_stable(&mut out, &mut keys);
        let ghost view = |e: CleanupCandidate| candidate_view(e);
        let ghost key = |v: (Seq<char>, Seq<Seq<char>>, PathBuf, bool, u64, CleanupClassification)|
            v.4;
        proof {
            lemma_sorted_is_ranked(out0, out@, keys0, keys@, perm@, view, key);
            assert(out0.map_values(view) =~= candidates_view(out0));
            assert(out@.map_values(view) =~= candidates_view(out@));
            law_candidates_are_the_outermost_matches(*self);
            assert forall|x: (Seq<char>, Seq<Seq<char>>, PathBuf, bool, u64, CleanupClassification)|
                candidates(*self, seq![]).contains(x) <==> #[trigger] candidates_view(
                    out@,
                ).contains(x) by {
                lemma_ranked_same_elements(candidates(*self, seq![]), candidates_view(out@), key, x);
            }
        }
        out
    }
}

} // verus!
