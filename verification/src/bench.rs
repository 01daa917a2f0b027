//! Synthetic trees for measuring treemap rendering cost: a dense mixed
//! volume and a flat mosaic of near-equal files. Every entry carries the
//! same placeholder path, and every directory's size is its children's
//! total.

use std::path::PathBuf;
use vstd::prelude::*;

use crate::scanner::volume::{directory_entry, sizes_total};
use crate::scanner::Entry;
use crate::text::{decimal, push_char, push_decimal};

verus! {

/// What `PathBuf::from` gives for a text: the path it writes.
pub uninterp spec fn path_of_text(text: Seq<char>) -> PathBuf;

/// `PathBuf::from`: the path written by `text`; its result is named.
#[verifier::external_body]
fn path_from_text(text: &str) -> (path: PathBuf)
    ensures
        path == path_of_text(text@),
{
    PathBuf::from(text)
}

/// The numbered name `{prefix}{i}{suffix}`.
pub open spec fn numbered(prefix: Seq<char>, i: int, suffix: Seq<char>) -> Seq<char> {
    prefix + decimal(i as nat) + suffix
}

/// `e` is a file named `name` of `size` bytes at `path`.
pub open spec fn is_file(e: Entry, name: Seq<char>, size: int, path: PathBuf) -> bool {
    &&& e.name@ == name
    &&& e.size == size
    &&& !e.is_dir
    &&& e.children@.len() == 0
    &&& e.path == path
}

/// `e` is a directory named `name` at `path` whose size is its children's
/// total.
pub open spec fn is_dir_of(e: Entry, name: Seq<char>, path: PathBuf) -> bool {
    &&& e.name@ == name
    &&& e.is_dir
    &&& e.size == sizes_total(e.children@)
    &&& e.path == path
}

/// `kids[from..from + count]` are the files `{prefix}{i}{suffix}` of
/// `base + (i % period) * step` bytes, `i` counting from 0.
pub open spec fn numbered_files(
    kids: Seq<Entry>,
    from: int,
    count: int,
    prefix: Seq<char>,
    suffix: Seq<char>,
    base: int,
    period: int,
    step: int,
    path: PathBuf,
) -> bool {
    forall|k: int|
        from <= k < from + count ==> is_file(
            #[trigger] kids[k],
            numbered(prefix, k - from, suffix),
            base + ((k - from) % period) * step,
            path,
        )
}

/// Every entry of `s` is at most `m` bytes.
pub open spec fn all_at_most(s: Seq<Entry>, m: int) -> bool {
    forall|k: int| 0 <= k < s.len() ==> #[trigger] s[k].size <= m
}

proof fn lemma_sizes_total_bounded(s: Seq<Entry>, m: int)
    requires
        0 <= m,
        all_at_most(s, m),
    ensures
        sizes_total(s) <= s.len() * m,
    decreases s.len(),
{
    if s.len() > 0 {
        let rest = s.drop_last();
        assert forall|k: int| 0 <= k < rest.len() implies #[trigger] rest[k].size <= m by {
            assert(rest[k] == s[k]);
        }
        lemma_sizes_total_bounded(rest, m);
        assert(s.last() == s[s.len() - 1]);
        let n = s.len() as int;
        assert((n - 1) * m + m == n * m) by (nonlinear_arith);
    }
}

/// Appends `text` to `out`.
fn push_text(out: &mut String, text: &str)
    ensures
        final(out)@ == old(out)@ + text@,
{
    let ghost start = out@;
    let n = text.unicode_len();
    let mut i: usize = 0;
    while i < n
        invariant
            i <= n,
            n == text@.len(),
            out@ == start + text@.take(i as int),
        decreases n - i,
    {
        push_char(out, text.get_char(i));
        i += 1;
        proof {
            assert(out@ =~= start + text@.take(i as int));
        }
    }
    proof {
        assert(text@.take(n as int) =~= text@);
    }
}

/// The name `{prefix}{i}{suffix}`.
fn numbered_name(prefix: &str, i: u64, suffix: &str) -> (name: String)
    ensures
        name@ == numbered(prefix@, i as int, suffix@),
{
    let mut name = prefix.to_owned();
    push_decimal(&mut name, i as u128);
    push_text(&mut name, suffix);
    name
}

/// Appends the files `{prefix}{i}{suffix}` of `base + (i % period) * step`
/// bytes for `i` in `0..count`.
fn push_numbered_files(
    out: &mut Vec<Entry>,
    count: u64,
    prefix: &str,
    suffix: &str,
    base: u64,
    period: u64,
    step: u64,
    path: &PathBuf,
)
    requires
        period > 0,
        base + (period - 1) * step <= u64::MAX,
    ensures
        final(out)@.len() == old(out)@.len() + count,
        final(out)@.take(old(out)@.len() as int) == old(out)@,
        numbered_files(
            final(out)@,
            old(out)@.len() as int,
            count as int,
            prefix@,
            suffix@,
            base as int,
            period as int,
            step as int,
            *path,
        ),
        forall|k: int|
            old(out)@.len() <= k < final(out)@.len() ==> #[trigger] final(out)@[k].size <= base
                + (period - 1) * step,
{
    let ghost start = out@;
    let mut i: u64 = 0;
    while i < count
        invariant
            i <= count,
            period > 0,
            base + (period - 1) * step <= u64::MAX,
            out@.len() == start.len() + i,
            out@.take(start.len() as int) == start,
            numbered_files(
                out@,
                start.len() as int,
                i as int,
                prefix@,
                suffix@,
                base as int,
                period as int,
                step as int,
                *path,
            ),
            forall|k: int|
                start.len() <= k < out@.len() ==> #[trigger] out@[k].size <= base + (period - 1)
                    * step,
        decreases count - i,
    {
        let r = i % period;
        proof {
            assert(r * step <= (period - 1) * step) by (nonlinear_arith)
                requires
                    r <= period - 1,
            ;
        }
        let size = base + r * step;
        let name = numbered_name(prefix, i, suffix);
        let ghost before = out@;
        out.push(Entry { name, path: path.clone(), size, is_dir: false, children: Vec::new() });
        proof {
            assert(out@.take(start.len() as int) =~= before.take(start.len() as int));
            assert forall|k: int|
                start.len() <= k < start.len() + i + 1 implies is_file(
                #[trigger] out@[k],
                numbered(prefix@, k - start.len(), suffix@),
                base + ((k - start.len()) % (period as int)) * step,
                *path,
            ) by {
                if k < start.len() + i {
                    assert(out@[k] == before[k]);
                }
            }
        }
        i += 1;
    }
}

/// A directory named `name` at `path` holding `children`, its size their
/// total.
fn dir_of(name: String, children: Vec<Entry>, path: &PathBuf) -> (e: Entry)
    requires
        sizes_total(children@) <= u64::MAX,
    ensures
        is_dir_of(e, name@, *path),
        e.children@ == children@,
{
    let ghost kids = children@;
    proof {
        assert(kids + Seq::<Entry>::empty() =~= kids);
    }
    match directory_entry(name, path.clone(), children, Vec::new()) {
        Some(e) => e,
        None => vstd::pervasive::unreached(),
    }
}

/// The `System32` directory of the dense tree.
pub open spec fn is_system32(e: Entry, path: PathBuf) -> bool {
    &&& is_dir_of(e, "System32"@, path)
    &&& e.children@.len() == 300
    &&& numbered_files(e.children@, 0, 240, "mod"@, ".dll"@, 40_000, 32, 90_000, path)
    &&& numbered_files(e.children@, 240, 60, "drv"@, ".sys"@, 20_000, 16, 30_000, path)
}

/// The `Installers` directory of the dense tree.
pub open spec fn is_installers(e: Entry, path: PathBuf) -> bool {
    &&& is_dir_of(e, "Installers"@, path)
    &&& e.children@.len() == 14
    &&& numbered_files(e.children@, 0, 14, "setup"@, ".exe"@, 200_000_000, 14, 90_000_000, path)
}

/// The `Downloads` directory of the dense tree.
pub open spec fn is_downloads(e: Entry, path: PathBuf) -> bool {
    &&& is_dir_of(e, "Downloads"@, path)
    &&& e.children@.len() == 38
    &&& numbered_files(e.children@, 0, 30, "clip"@, ".mp4"@, 6_000_000, 5, 1_000_000, path)
    &&& numbered_files(e.children@, 30, 8, "iso"@, ".iso"@, 700_000_000, 8, 30_000_000, path)
}

/// Sub-directory `sub{s}` of an application directory.
pub open spec fn is_app_sub(e: Entry, s: int, path: PathBuf) -> bool {
    &&& is_dir_of(e, numbered("sub"@, s, ""@), path)
    &&& e.children@.len() == 24
    &&& numbered_files(e.children@, 0, 24, "res"@, ".bin"@, 80_000, 10, 120_000, path)
}

/// Application directory `App{a}`: three sub-directories.
pub open spec fn is_app(e: Entry, a: int, path: PathBuf) -> bool {
    &&& is_dir_of(e, numbered("App"@, a, ""@), path)
    &&& e.children@.len() == 3
    &&& forall|s: int| 0 <= s < 3 ==> is_app_sub(#[trigger] e.children@[s], s, path)
}

/// The `Program Files` directory of the dense tree: six applications.
pub open spec fn is_program_files(e: Entry, path: PathBuf) -> bool {
    &&& is_dir_of(e, "Program Files"@, path)
    &&& e.children@.len() == 6
    &&& forall|a: int| 0 <= a < 6 ==> is_app(#[trigger] e.children@[a], a, path)
}

/// The dense tree: eight loose archives, then `Windows` (holding
/// `System32`), `Installers`, `Downloads` and `Program Files`, under `C:\`.
pub open spec fn is_dense_tree(t: Entry) -> bool {
    let path = t.path;
    &&& is_dir_of(t, "C:\\"@, path)
    &&& t.children@.len() == 12
    &&& numbered_files(
        t.children@,
        0,
        8,
        "archive"@,
        ".zip"@,
        1_200_000_000,
        8,
        200_000_000,
        path,
    )
    &&& is_dir_of(t.children@[8], "Windows"@, path)
    &&& t.children@[8].children@.len() == 1
    &&& is_system32(t.children@[8].children@[0], path)
    &&& is_installers(t.children@[9], path)
    &&& is_downloads(t.children@[10], path)
    &&& is_program_files(t.children@[11], path)
}

/// The flat mosaic: `Mosaic` holding 400 files `file{i}.dat` of
/// `1_000_000 + (i % 7) * 40_000` bytes.
pub open spec fn is_mosaic_tree(t: Entry) -> bool {
    &&& is_dir_of(t, "Mosaic"@, t.path)
    &&& t.children@.len() == 400
    &&& numbered_files(t.children@, 0, 400, "file"@, ".dat"@, 1_000_000, 7, 40_000, t.path)
}

fn system32(path: &PathBuf) -> (e: Entry)
    ensures
        is_system32(e, *path),
        e.size <= 300 * 2_830_000,
{
    let mut kids: Vec<Entry> = Vec::new();
    push_numbered_files(&mut kids, 240, "mod", ".dll", 40_000, 32, 90_000, path);
    let ghost first = kids@;
    push_numbered_files(&mut kids, 60, "drv", ".sys", 20_000, 16, 30_000, path);
    proof {
        assert forall|k: int| 0 <= k < 240 implies is_file(
            #[trigger] kids@[k],
            numbered("mod"@, k - 0, ".dll"@),
            40_000 + ((k - 0) % 32) * 90_000,
            *path,
        ) by {
            assert(kids@[k] == kids@.take(240)[k]);
        }
        assert forall|k: int| 0 <= k < 300 implies #[trigger] kids@[k].size <= 2_830_000 by {
            if k < 240 {
                assert(kids@[k] == kids@.take(240)[k]);
                assert(first[k].size <= 2_830_000);
            }
        }
        lemma_sizes_total_bounded(kids@, 2_830_000);
    }
    dir_of("System32".to_owned(), kids, path)
}

fn installers(path: &PathBuf) -> (e: Entry)
    ensures
        is_installers(e, *path),
        e.size <= 14 * 1_370_000_000,
{
    let mut kids: Vec<Entry> = Vec::new();
    push_numbered_files(&mut kids, 14, "setup", ".exe", 200_000_000, 14, 90_000_000, path);
    proof {
        lemma_sizes_total_bounded(kids@, 1_370_000_000);
    }
    dir_of("Installers".to_owned(), kids, path)
}

fn downloads(path: &PathBuf) -> (e: Entry)
    ensures
        is_downloads(e, *path),
        e.size <= 38 * 910_000_000,
{
    let mut kids: Vec<Entry> = Vec::new();
    push_numbered_files(&mut kids, 30, "clip", ".mp4", 6_000_000, 5, 1_000_000, path);
    let ghost first = kids@;
    push_numbered_files(&mut kids, 8, "iso", ".iso", 700_000_000, 8, 30_000_000, path);
    proof {
        assert forall|k: int| 0 <= k < 30 implies is_file(
            #[trigger] kids@[k],
            numbered("clip"@, k - 0, ".mp4"@),
            6_000_000 + ((k - 0) % 5) * 1_000_000,
            *path,
        ) by {
            assert(kids@[k] == kids@.take(30)[k]);
        }
        assert forall|k: int| 0 <= k < 38 implies #[trigger] kids@[k].size <= 910_000_000 by {
            if k < 30 {
                assert(kids@[k] == kids@.take(30)[k]);
                assert(first[k].size <= 10_000_000);
            }
        }
        lemma_sizes_total_bounded(kids@, 910_000_000);
    }
    dir_of("Downloads".to_owned(), kids, path)
}

fn app_sub(s: u64, path: &PathBuf) -> (e: Entry)
    ensures
        is_app_sub(e, s as int, *path),
        e.size <= 24 * 1_160_000,
{
    let mut kids: Vec<Entry> = Vec::new();
    push_numbered_files(&mut kids, 24, "res", ".bin", 80_000, 10, 120_000, path);
    proof {
        lemma_sizes_total_bounded(kids@, 1_160_000);
    }
    dir_of(numbered_name("sub", s, ""), kids, path)
}

fn app(a: u64, path: &PathBuf) -> (e: Entry)
    ensures
        is_app(e, a as int, *path),
        e.size <= 3 * 27_840_000,
{
    let mut kids: Vec<Entry> = Vec::new();
    let mut s: u64 = 0;
    while s < 3
        invariant
            s <= 3,
            kids@.len() == s,
            forall|j: int| 0 <= j < s ==> is_app_sub(#[trigger] kids@[j], j, *path),
            all_at_most(kids@, 27_840_000),
        decreases 3 - s,
    {
        let sub = app_sub(s, path);
        kids.push(sub);
        s += 1;
    }
    proof {
        lemma_sizes_total_bounded(kids@, 27_840_000);
    }
    dir_of(numbered_name("App", a, ""), kids, path)
}

fn program_files(path: &PathBuf) -> (e: Entry)
    ensures
        is_program_files(e, *path),
        e.size <= 6 * 83_520_000,
{
    let mut kids: Vec<Entry> = Vec::new();
    let mut a: u64 = 0;
    while a < 6
        invariant
            a <= 6,
            kids@.len() == a,
            forall|j: int| 0 <= j < a ==> is_app(#[trigger] kids@[j], j, *path),
            all_at_most(kids@, 83_520_000),
        decreases 6 - a,
    {
        let one = app(a, path);
        kids.push(one);
        a += 1;
    }
    proof {
        lemma_sizes_total_bounded(kids@, 83_520_000);
    }
    dir_of("Program Files".to_owned(), kids, path)
}

/// A dense mixed tree: a system directory of hundreds of small libraries,
/// a few large installers, a mosaic of similar mid-size downloads, nested
/// application directories, and eight large loose archives.
pub fn synth_dense_tree() -> (tree: Entry)
    ensures
        is_dense_tree(tree),
        tree.path == path_of_text("bench"@),
{
    let path = path_from_text("bench");
    let mut loose: Vec<Entry> = Vec::new();
    push_numbered_files(&mut loose, 8, "archive", ".zip", 1_200_000_000, 8, 200_000_000, &path);
    let ghost archives = loose@;
    let sys = system32(&path);
    let ghost sys_spec = sys;
    let mut win_kids: Vec<Entry> = Vec::new();
    win_kids.push(sys);
    proof {
        lemma_sizes_total_bounded(win_kids@, 849_000_000);
    }
    let windows = dir_of("Windows".to_owned(), win_kids, &path);
    loose.push(windows);
    loose.push(installers(&path));
    loose.push(downloads(&path));
    loose.push(program_files(&path));
    proof {
        assert forall|k: int| 0 <= k < 8 implies is_file(
            #[trigger] loose@[k],
            numbered("archive"@, k - 0, ".zip"@),
            1_200_000_000 + ((k - 0) % 8) * 200_000_000,
            path,
        ) by {
            assert(loose@[k] == archives[k]);
        }
        assert forall|k: int| 0 <= k < 12 implies #[trigger] loose@[k].size <= 40_000_000_000 by {
            if k < 8 {
                assert(loose@[k] == archives[k]);
            }
        }
        lemma_sizes_total_bounded(loose@, 40_000_000_000);
    }
    dir_of("C:\\".to_owned(), loose, &path)
}

/// A single directory of 400 near-equal mid-size files.
pub fn synth_all_cards_tree() -> (tree: Entry)
    ensures
        is_mosaic_tree(tree),
        tree.path == path_of_text("bench"@),
{
    let path = path_from_text("bench");
    let mut kids: Vec<Entry> = Vec::new();
    push_numbered_files(&mut kids, 400, "file", ".dat", 1_000_000, 7, 40_000, &path);
    proof {
        lemma_sizes_total_bounded(kids@, 1_240_000);
    }
    dir_of("Mosaic".to_owned(), kids, &path)
}

} // verus!
