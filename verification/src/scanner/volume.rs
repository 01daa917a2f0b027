//! The computing half of scanning a volume: the drive a path lives on, the
//! extents of the `$MFT` to read, parsing its record slots, carving the
//! scanned subtree out of the whole-volume tree, assembling a walked
//! directory, and tallying a finished tree into the progress counters.

use rayon::iter::{IntoParallelIterator, ParallelIterator};
use std::path::{Path, PathBuf};
use std::sync::atomic::{AtomicBool, Ordering};
use vstd::prelude::*;

use super::mft::{
    apply_fixups, fixups_result, parse_record, record_info, DataRun, ParsedRecord,
    RecordFields,
};
use super::{Entry, ScanProgress};
use crate::text::{lower, names_of, same_text, to_ascii_lowercase};

verus! {

/// Whether `c` is an ASCII letter.
pub open spec fn ascii_letter(c: char) -> bool {
    ('a' <= c && c <= 'z') || ('A' <= c && c <= 'Z')
}

/// The ASCII uppercase of a letter.
pub open spec fn upper_letter(c: char) -> char {
    if 'a' <= c && c <= 'z' {
        ((c as u32) - 32) as char
    } else {
        c
    }
}

/// The `X:` drive prefix of a path's text: an ASCII letter (uppercased) and
/// a colon, when the text starts with them.
pub open spec fn drive_spec(text: Seq<char>) -> Option<Seq<char>> {
    if text.len() >= 2 && ascii_letter(text[0]) && text[1] == ':' {
        Some(seq![upper_letter(text[0]), ':'])
    } else {
        None
    }
}

/// The `X:` drive prefix of a path's text, if it has one.
pub fn drive_prefix(text: &str) -> (drive: Option<String>)
    ensures
        match drive_spec(text@) {
            Some(d) => drive matches Some(s) && s@ == d,
            None => drive is None,
        },
{
    let n = text.unicode_len();
    if n < 2 {
        return None;
    }
    let first = text.get_char(0);
    let second = text.get_char(1);
    let letter = ('a' <= first && first <= 'z') || ('A' <= first && first <= 'Z');
    if !letter || second != ':' {
        return None;
    }
    let up = if 'a' <= first && first <= 'z' {
        let code = first as u32;
        ((code as u8) - 32) as char
    } else {
        first
    };
    let mut out = String::new();
    crate::text::push_char(&mut out, up);
    crate::text::push_char(&mut out, ':');
    proof {
        assert(out@ =~= seq![upper_letter(first), ':']);
    }
    Some(out)
}

/// What `Path::to_string_lossy` gives: the path's text, each invalid
/// sequence replaced by U+FFFD.
pub uninterp spec fn lossy_text(path: &Path) -> Seq<char>;

/// `Path::to_string_lossy`, as an owned string; its result is named.
#[verifier::external_body]
fn path_text(path: &Path) -> (text: String)
    ensures
        text@ == lossy_text(path),
{
    path.to_string_lossy().into_owned()
}

/// The `X:` drive prefix of `target`, read from its (lossily converted)
/// text.
pub fn drive_of(target: &Path) -> (drive: Option<String>)
    ensures
        match drive_spec(lossy_text(target)) {
            Some(d) => drive matches Some(s) && s@ == d,
            None => drive is None,
        },
{
    let text = path_text(target);
    drive_prefix(text.as_str())
}

/// Where each extent of the `$MFT` lies on the volume: `(byte offset, byte
/// length)` for each run of `cluster_size`-byte clusters; `None` when an
/// offset or length does not fit the machine.
pub fn mft_extents(runs: &[DataRun], cluster_size: u64) -> (extents: Option<Vec<(u64, usize)>>)
    ensures
        match extents {
            Some(v) => {
                &&& v@.len() == runs@.len()
                &&& forall|k: int|
                    0 <= k < runs@.len() ==> #[trigger] v@[k] == (
                        (runs@[k].lcn * cluster_size) as u64,
                        (runs@[k].cluster_count * cluster_size) as usize,
                    ) && runs@[k].lcn * cluster_size <= u64::MAX && runs@[k].cluster_count
                        * cluster_size <= usize::MAX
            },
            None => exists|k: int|
                0 <= k < runs@.len() && (#[trigger] runs@[k].lcn * cluster_size > u64::MAX
                    || runs@[k].cluster_count * cluster_size > usize::MAX),
        },
{
    let mut out: Vec<(u64, usize)> = Vec::new();
    let n = runs.len();
    let mut k: usize = 0;
    while k < n
        invariant
            k <= n,
            n == runs@.len(),
            out@.len() == k,
            forall|j: int|
                0 <= j < k ==> #[trigger] out@[j] == (
                    (runs@[j].lcn * cluster_size) as u64,
                    (runs@[j].cluster_count * cluster_size) as usize,
                ) && runs@[j].lcn * cluster_size <= u64::MAX && runs@[j].cluster_count
                    * cluster_size <= usize::MAX,
        decreases n - k,
    {
        let run = runs[k];
        let offset = match run.lcn.checked_mul(cluster_size) {
            Some(v) => v,
            None => {
                return None;
            },
        };
        let len = match run.cluster_count.checked_mul(cluster_size) {
            Some(v) => v,
            None => {
                return None;
            },
        };
        if len > usize::MAX as u64 {
            return None;
        }
        out.push((offset, len as usize));
        k += 1;
    }
    Some(out)
}

/// What a slot of a raw `$MFT` buffer holds: the record in bytes
/// `[index * record_size, (index + 1) * record_size)`, fixed up and parsed.
pub open spec fn slot_record(mft: Seq<u8>, index: int, record_size: int, r: ParsedRecord) -> bool {
    let raw = mft.subrange(index * record_size, (index + 1) * record_size);
    &&& 0 <= index
    &&& record_size > 0
    &&& (index + 1) * record_size <= mft.len()
    &&& fixups_result(raw).1
    &&& record_info(index as u64, fixups_result(raw).0) == Some(r.fields())
    &&& index <= u64::MAX
}

/// `r` is the record of some slot of a raw `$MFT` buffer.
pub open spec fn from_some_slot(mft: Seq<u8>, record_size: int, r: ParsedRecord) -> bool {
    exists|i: int| #[trigger] slot_record(mft, i, record_size, r)
}

/// `AtomicBool::load`: whether cancellation was requested.
fn cancel_seen(cancel: &AtomicBool) -> bool {
    cancel.load(Ordering::Relaxed)
}

/// What slot `index` of a raw `$MFT` buffer parses to: the fields of the
/// record in bytes `[index * record_size, (index + 1) * record_size)` once
/// fixed up; `None` when the slot lies outside the buffer, is empty or too
/// large to address, its fixups fail, or it is not a FILE record.
pub open spec fn slot_fields(mft: Seq<u8>, index: int, record_size: int) -> Option<RecordFields> {
    let raw = mft.subrange(index * record_size, (index + 1) * record_size);
    if 0 <= index && 0 < record_size <= isize::MAX && (index + 1) * record_size <= mft.len()
        && fixups_result(raw).1 {
        record_info(index as u64, fixups_result(raw).0)
    } else {
        None
    }
}

/// Parses slot `index` of a raw `$MFT` buffer: `None` when the slot lies
/// outside the buffer, its fixups fail, or it is not a FILE record.
pub fn read_slot(mft: &[u8], index: usize, record_size: usize) -> (rec: Option<ParsedRecord>)
    ensures
        match slot_fields(mft@, index as int, record_size as int) {
            Some(f) => rec matches Some(r) && r.fields() == f && slot_record(
                mft@,
                index as int,
                record_size as int,
                r,
            ),
            None => rec is None,
        },
{
    if record_size == 0 {
        return None;
    }
    let n = mft.len();
    let start = match index.checked_mul(record_size) {
        Some(s) => s,
        None => {
            proof {
                assert((index + 1) * record_size >= index * record_size) by (nonlinear_arith)
                    requires
                        record_size > 0,
                ;
            }
            return None;
        },
    };
    proof {
        assert((index + 1) * record_size == index * record_size + record_size) by (nonlinear_arith);
    }
    if start > n || record_size > n - start {
        return None;
    }
    if record_size > isize::MAX as usize {
        return None;
    }
    let end = start + record_size;
    let mut buf = vstd::slice::slice_to_vec(vstd::slice::slice_subrange(mft, start, end));
    let ghost raw = buf@;
    proof {
        assert(raw == mft@.subrange(index * record_size, (index + 1) * record_size));
    }
    if !apply_fixups(&mut buf) {
        return None;
    }
    parse_record(index as u64, buf.as_slice())
}

/// Parses slot `index` of a raw `$MFT` buffer unless cancellation was
/// requested: `None` then, and otherwise what [`read_slot`] gives.
pub fn parse_slot(mft: &[u8], index: usize, record_size: usize, cancel: &AtomicBool) -> (rec: Option<ParsedRecord>)
    ensures
        rec matches Some(r) ==> slot_record(mft@, index as int, record_size as int, r),
        rec matches Some(r) ==> slot_fields(mft@, index as int, record_size as int) == Some(r.fields()),
{
    if cancel_seen(cancel) {
        return None;
    }
    read_slot(mft, index, record_size)
}

/// `records` are the parses of slots `idx`, which lie below `count` in
/// increasing order.
pub open spec fn parsed_at(
    mft: Seq<u8>,
    record_size: int,
    count: int,
    idx: Seq<int>,
    records: Seq<ParsedRecord>,
) -> bool {
    &&& idx.len() == records.len()
    &&& forall|k: int| 0 <= k < idx.len() ==> 0 <= #[trigger] idx[k] < count
    &&& forall|a: int, b: int| 0 <= a < b < idx.len() ==> #[trigger] idx[a] < #[trigger] idx[b]
    &&& forall|k: int|
        0 <= k < idx.len() ==> slot_fields(mft, #[trigger] idx[k], record_size) == Some(
            records[k].fields(),
        )
}

/// `records` are parses of distinct slots below `count`, in slot order.
pub open spec fn in_slot_order(mft: Seq<u8>, record_size: int, count: int, records: Seq<ParsedRecord>) -> bool {
    exists|idx: Seq<int>| #[trigger] parsed_at(mft, record_size, count, idx, records)
}

/// `rayon`: parses slots `0..count` on the thread pool, keeping the records
/// that parse. Each record kept is what [`parse_slot`] gave for some slot
/// below `count`, and they come in slot order (collecting into a `Vec`
/// keeps the order of the indices). Which slots are dropped because
/// cancellation was seen is not stated.
#[verifier::external_body]
fn parse_slots_in_parallel(
    mft: &[u8],
    count: usize,
    record_size: usize,
    cancel: &AtomicBool,
) -> (records: Vec<ParsedRecord>)
    ensures
        forall|k: int|
            0 <= k < records@.len() ==> from_some_slot(mft@, record_size as int, #[trigger] records@[k]),
        in_slot_order(mft@, record_size as int, count as int, records@),
{
    (0..count).into_par_iter().filter_map(|i| parse_slot(mft, i, record_size, cancel)).collect()
}

/// Parses every whole record slot of a raw `$MFT` buffer in parallel,
/// dropping slots that fail fixups or are not FILE records (and everything
/// once cancellation is requested). The records kept come in slot order.
pub fn parse_mft(mft: &[u8], record_size: usize, cancel: &AtomicBool) -> (records: Vec<ParsedRecord>)
    ensures
        forall|k: int|
            0 <= k < records@.len() ==> from_some_slot(mft@, record_size as int, #[trigger] records@[k]),
        record_size > 0 ==> in_slot_order(mft@, record_size as int, mft@.len() as int / record_size as int, records@),
        record_size == 0 ==> records@.len() == 0,
{
    if record_size == 0 {
        return Vec::new();
    }
    let count = mft.len() / record_size;
    parse_slots_in_parallel(mft, count, record_size, cancel)
}

/// Names equal once ASCII letters are folded to lowercase.
pub open spec fn same_ignoring_case(a: Seq<char>, b: Seq<char>) -> bool {
    lower(a) == lower(b)
}

/// The first of `s[from..]` whose name matches `name` ignoring ASCII case.
pub open spec fn first_matching_from(s: Seq<Entry>, name: Seq<char>, from: int) -> Option<int>
    decreases s.len() - from,
{
    if from < 0 || from >= s.len() {
        None
    } else if same_ignoring_case(s[from].name@, name) {
        Some(from)
    } else {
        first_matching_from(s, name, from + 1)
    }
}

/// Following `comps` down from `node`, each time into the first child whose
/// name matches ignoring ASCII case: the node reached, or the first
/// component no child matched.
pub open spec fn walk_down(node: Entry, comps: Seq<Seq<char>>) -> Result<Entry, Seq<char>>
    decreases comps.len(),
{
    if comps.len() == 0 {
        Ok(node)
    } else {
        match first_matching_from(node.children@, comps[0], 0) {
            Some(k) => walk_down(node.children@[k], comps.skip(1)),
            None => Err(comps[0]),
        }
    }
}

/// Whether `a` and `b` are equal ignoring ASCII case.
fn equal_ignoring_case(a: &str, b: &str) -> (same: bool)
    ensures
        same == same_ignoring_case(a@, b@),
{
    let la = to_ascii_lowercase(a);
    let lb = to_ascii_lowercase(b);
    same_text(la.as_str(), lb.as_str())
}

/// Descends from the whole-volume tree to the scanned directory along
/// `comps` (matching names ignoring ASCII case). When a component is not
/// found, an empty directory named after it at `target` stands in.
pub fn descend(volume_root: Entry, comps: &[String], target: PathBuf) -> (node: Entry)
    ensures
        match walk_down(volume_root, names_of(comps@)) {
            Ok(e) => node == e,
            Err(missing) => {
                &&& node.name@ == missing
                &&& node.path == target
                &&& node.size == 0
                &&& node.is_dir
                &&& node.children@.len() == 0
            },
        },
{
    let ghost all = names_of(comps@);
    let mut node = volume_root;
    let n = comps.len();
    let mut i: usize = 0;
    proof {
        assert(all.skip(0) =~= all);
    }
    while i < n
        invariant
            i <= n,
            n == comps@.len(),
            all == names_of(comps@),
            walk_down(volume_root, all) == walk_down(node, all.skip(i as int)),
        decreases n - i,
    {
        let comp = &comps[i];
        let ghost rest = all.skip(i as int);
        proof {
            assert(rest[0] == comp@);
            assert(rest.skip(1) =~= all.skip(i + 1));
        }
        let m = node.children.len();
        let mut k: usize = 0;
        while k < m && !equal_ignoring_case(node.children[k].name.as_str(), comp.as_str())
            invariant
                k <= m,
                m == node.children@.len(),
                first_matching_from(node.children@, comp@, 0) == first_matching_from(
                    node.children@,
                    comp@,
                    k as int,
                ),
            decreases m - k,
        {
            k += 1;
        }
        if k == m {
            return Entry {
                name: comp.clone(),
                path: target,
                size: 0,
                is_dir: true,
                children: Vec::new(),
            };
        }
        node = node.children.swap_remove(k);
        i += 1;
    }
    proof {
        assert(all.skip(n as int) =~= Seq::<Seq<char>>::empty());
    }
    node
}

/// What `Path::components` gives: each component, as its (lossily
/// converted) text when it is a named (normal) one and as `None` otherwise
/// (a prefix, the root, `.` or `..`).
pub uninterp spec fn path_parts(target: &Path) -> Seq<Option<Seq<char>>>;

/// The texts of a list of optional strings.
pub open spec fn options_view(parts: Seq<Option<String>>) -> Seq<Option<Seq<char>>> {
    parts.map_values(|o: Option<String>| match o {
        Some(t) => Some(t@),
        None => None,
    })
}

/// `Path::components`: each component, as text when it is a named (normal)
/// one and as `None` otherwise; its result is named.
#[verifier::external_body]
fn component_texts(target: &Path) -> (parts: Vec<Option<String>>)
    ensures
        options_view(parts@) == path_parts(target),
{
    target
        .components()
        .map(
            |c| match c {
                std::path::Component::Normal(s) => Some(s.to_string_lossy().into_owned()),
                _ => None,
            },
        )
        .collect()
}

/// The texts of the named components, in order.
pub open spec fn named_texts(parts: Seq<Option<Seq<char>>>) -> Seq<Seq<char>>
    decreases parts.len(),
{
    if parts.len() == 0 {
        Seq::empty()
    } else {
        let rest = named_texts(parts.drop_last());
        match parts.last() {
            Some(t) => rest.push(t),
            None => rest,
        }
    }
}

/// The named components of `target`, in order.
pub open spec fn target_names(target: &Path) -> Seq<Seq<char>> {
    named_texts(path_parts(target))
}

/// Keeps the named components.
fn named_only(parts: &Vec<Option<String>>) -> (names: Vec<String>)
    ensures
        names_of(names@) == named_texts(options_view(parts@)),
{
    let n = parts.len();
    let mut names: Vec<String> = Vec::new();
    let mut i: usize = 0;
    while i < n
        invariant
            i <= n,
            n == parts@.len(),
            names_of(names@) == named_texts(options_view(parts@).take(i as int)),
        decreases n - i,
    {
        proof {
            assert(options_view(parts@).take(i as int + 1).drop_last() =~= options_view(
                parts@,
            ).take(i as int));
        }
        match &parts[i] {
            Some(t) => {
                let ghost before = names@;
                names.push(t.clone());
                proof {
                    assert(names_of(names@) =~= names_of(before).push(t@));
                }
            },
            None => {},
        }
        i += 1;
    }
    proof {
        assert(options_view(parts@).take(n as int) =~= options_view(parts@));
    }
    names
}

/// What `Path::to_path_buf` gives: the same path, owned.
pub uninterp spec fn owned_of(target: &Path) -> PathBuf;

/// `Path::to_path_buf`; its result is named.
#[verifier::external_body]
fn owned_path(target: &Path) -> (path: PathBuf)
    ensures
        path == owned_of(target),
{
    target.to_path_buf()
}

/// Resolves `target`'s directory within the reconstructed volume tree by
/// following its named path components down from the volume root. When a
/// component is not found, an empty directory named after it, at `target`,
/// stands in.
pub fn extract_subtree(volume_root: Entry, target: &Path) -> (node: Entry)
    ensures
        match walk_down(volume_root, target_names(target)) {
            Ok(e) => node == e,
            Err(missing) => {
                &&& node.name@ == missing
                &&& node.path == owned_of(target)
                &&& node.size == 0
                &&& node.is_dir
                &&& node.children@.len() == 0
            },
        },
{
    let parts = component_texts(target);
    let comps = named_only(&parts);
    let path = owned_path(target);
    descend(volume_root, comps.as_slice(), path)
}

/// Total size of a list of entries.
pub open spec fn sizes_total(s: Seq<Entry>) -> nat
    decreases s.len(),
{
    if s.len() == 0 {
        0
    } else {
        sizes_total(s.drop_last()) + s.last().size as nat
    }
}

/// A walked directory: its files, then its subdirectories, with its size the
/// total of theirs; `None` when that total does not fit in 64 bits.
pub fn directory_entry(name: String, path: PathBuf, files: Vec<Entry>, subdirs: Vec<Entry>) -> (dir: Option<Entry>)
    ensures
        match dir {
            Some(d) => {
                &&& d.name == name
                &&& d.path == path
                &&& d.is_dir
                &&& d.children@ == files@ + subdirs@
                &&& d.size == sizes_total(files@ + subdirs@)
            },
            None => sizes_total(files@ + subdirs@) > u64::MAX,
        },
{
    let mut children = files;
    let mut rest = subdirs;
    let ghost all = children@ + rest@;
    let mut total: u64 = 0;
    let n = children.len();
    let mut k: usize = 0;
    proof {
        assert(children@.take(0) =~= Seq::<Entry>::empty());
    }
    while k < n
        invariant
            k <= n,
            n == children@.len(),
            all == children@ + rest@,
            all == files@ + subdirs@,
            total == sizes_total(children@.take(k as int)),
        decreases n - k,
    {
        let s = children[k].size;
        proof {
            assert(children@.take(k + 1).drop_last() =~= children@.take(k as int));
        }
        total = match total.checked_add(s) {
            Some(t) => t,
            None => {
                proof {
                    lemma_sizes_total_prefix(all, k + 1);
                    assert(all.take(k + 1) =~= children@.take(k + 1));
                    assert(children@.take(k + 1).last() == children@[k as int]);
                    assert(sizes_total(children@.take(k + 1)) == total + s);
                }
                return None;
            },
        };
        k += 1;
    }
    proof {
        assert(children@.take(n as int) =~= children@);
    }
    let ghost first = children@;
    let m = rest.len();
    let mut j: usize = 0;
    proof {
        assert(first + rest@.take(0) =~= first);
    }
    while j < m
        invariant
            j <= m,
            m == rest@.len(),
            all == first + rest@,
            all == files@ + subdirs@,
            total == sizes_total(first + rest@.take(j as int)),
        decreases m - j,
    {
        let s = rest[j].size;
        proof {
            assert((first + rest@.take(j + 1)).drop_last() =~= first + rest@.take(j as int));
        }
        total = match total.checked_add(s) {
            Some(t) => t,
            None => {
                proof {
                    lemma_sizes_total_prefix(all, first.len() + j + 1);
                    assert(all.take(first.len() + j + 1) =~= first + rest@.take(j + 1));
                    assert((first + rest@.take(j + 1)).last() == rest@[j as int]);
                    assert(sizes_total(first + rest@.take(j + 1)) == total + s);
                }
                return None;
            },
        };
        j += 1;
    }
    proof {
        assert(rest@.take(m as int) =~= rest@);
    }
    children.append(&mut rest);
    Some(Entry { name, path, size: total, is_dir: true, children })
}

proof fn lemma_sizes_total_prefix(s: Seq<Entry>, k: int)
    requires
        0 <= k <= s.len(),
    ensures
        sizes_total(s.take(k)) <= sizes_total(s),
    decreases s.len() - k,
{
    if k < s.len() {
        lemma_sizes_total_prefix(s, k + 1);
        assert(s.take(k + 1).drop_last() =~= s.take(k));
    } else {
        assert(s.take(k) =~= s);
    }
}

/// Counts a finished tree into the progress counters in one walk: each
/// directory below the root as a directory, each file as a file and its
/// bytes. The counters are shared with other threads, so nothing is claimed
/// of their values.
pub fn tally(entry: &Entry, progress: &ScanProgress)
    decreases entry,
{
    let n = entry.children.len();
    let mut k: usize = 0;
    while k < n
        invariant
            k <= n,
            n == entry.children@.len(),
        decreases n - k,
    {
        proof {
            assert(decreases_to!(*entry => entry.children));
            assert(decreases_to!(entry.children => entry.children@));
            assert(decreases_to!(entry.children@ => entry.children@[k as int]));
        }
        let child = &entry.children[k];
        if child.is_dir {
            progress.count_directory();
            tally(child, progress);
        } else {
            progress.count_file(child.size);
        }
        k += 1;
    }
}

} // verus!
