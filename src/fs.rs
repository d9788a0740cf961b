use vstd::prelude::*;

use crate::bytes::{
    byte_cmp, bytes_equal, compare_bytes, copy_bytes, join, join_path, lemma_byte_cmp_flip,
    lemma_byte_cmp_same,
    lemma_paths_view_concat, paths_view,
};

verus! {

/// Last-modified time of a filesystem entry, relative to the Unix epoch.
#[derive(Clone, Copy, Debug, PartialEq, Eq, Structural)]
pub struct ModTime {
    pub secs: i64,
    pub nanos: u32,
}

/// What one scan records of one entry: its fingerprint, its base name and
/// its modification time.
pub struct EntryData {
    pub hash: u64,
    pub path: Vec<u8>,
    pub modify_time: ModTime,
}

/// A snapshot of a filesystem entry: a hash tree whose node fingerprints
/// change whenever a name, a timestamp or anything below changes.
///
/// A directory holds its children ordered by name, with no two of equal
/// fingerprint (a set keyed by fingerprint); `wf_view` states this, and
/// `from_scan` establishes it.
pub enum FileSystem {
    Directory { info: EntryData, entries: Vec<FileSystem> },
    File { info: EntryData },
}

/// The mathematical value of a snapshot node.
pub enum FileSystemView {
    Directory { hash: u64, name: Seq<u8>, modify_time: ModTime, entries: Seq<FileSystemView> },
    File { hash: u64, name: Seq<u8>, modify_time: ModTime },
}

/// The paths that a comparison of two snapshots found added and removed.
pub struct FileSystemDiff {
    pub added: Vec<Vec<u8>>,
    pub removed: Vec<Vec<u8>>,
}

/// What reading the filesystem yields for one entry, before fingerprints
/// are computed: `entries` is `None` for an entry that could not be listed
/// as a directory.
pub struct ScanEntry {
    pub name: Vec<u8>,
    pub modify_time: ModTime,
    pub entries: Option<Vec<ScanEntry>>,
}

impl FileSystemView {
    pub open spec fn hash(self) -> u64 {
        match self {
            FileSystemView::Directory { hash, .. } => hash,
            FileSystemView::File { hash, .. } => hash,
        }
    }

    pub open spec fn name(self) -> Seq<u8> {
        match self {
            FileSystemView::Directory { name, .. } => name,
            FileSystemView::File { name, .. } => name,
        }
    }

    pub open spec fn modify_time(self) -> ModTime {
        match self {
            FileSystemView::Directory { modify_time, .. } => modify_time,
            FileSystemView::File { modify_time, .. } => modify_time,
        }
    }

    /// The children of a directory; a file has none.
    pub open spec fn entries(self) -> Seq<FileSystemView> {
        match self {
            FileSystemView::Directory { entries, .. } => entries,
            FileSystemView::File { .. } => Seq::empty(),
        }
    }
}

impl FileSystem {
    pub open spec fn view_of(self) -> FileSystemView
        decreases self,
    {
        match self {
            FileSystem::Directory { info, entries } => FileSystemView::Directory {
                hash: info.hash,
                name: info.path@,
                modify_time: info.modify_time,
                entries: Seq::new(
                    entries@.len(),
                    |k: int|
                        if 0 <= k < entries@.len() {
                            entries@[k].view_of()
                        } else {
                            FileSystemView::File {
                                hash: 0,
                                name: Seq::empty(),
                                modify_time: ModTime { secs: 0, nanos: 0 },
                            }
                        },
                ),
            },
            FileSystem::File { info } => FileSystemView::File {
                hash: info.hash,
                name: info.path@,
                modify_time: info.modify_time,
            },
        }
    }
}

impl View for FileSystem {
    type V = FileSystemView;

    open spec fn view(&self) -> FileSystemView {
        self.view_of()
    }
}

/// Leaf paths of `v`'s children from the `i`-th on, under `parent`; for a
/// file, its own path.
pub open spec fn files_at(v: FileSystemView, parent: Seq<u8>, i: int) -> Seq<Seq<u8>>
    decreases v, v.entries().len() - i,
{
    match v {
        FileSystemView::File { name, .. } => seq![join(parent, name)],
        FileSystemView::Directory { name, entries, .. } => {
            if 0 <= i < entries.len() {
                files_at(entries[i], join(parent, name), 0) + files_at(v, parent, i + 1)
            } else {
                Seq::empty()
            }
        },
    }
}

/// The full paths of all leaf files in `v`, which sits in directory `parent`.
/// Directories contribute no path of their own.
pub open spec fn files_of(v: FileSystemView, parent: Seq<u8>) -> Seq<Seq<u8>> {
    files_at(v, parent, 0)
}

/// The (added, removed) paths between snapshot `b` (before) and `a` (after),
/// both sitting in directory `parent`.
///
/// Equal fingerprints mean nothing changed. Two directories of the same name
/// are compared child by child; any other change counts as the whole of `b`
/// removed and the whole of `a` added.
pub open spec fn diff_of(b: FileSystemView, a: FileSystemView, parent: Seq<u8>) -> (
    Seq<Seq<u8>>,
    Seq<Seq<u8>>,
)
    decreases b, b.entries().len() + a.entries().len() + 1,
{
    if b.hash() == a.hash() {
        (Seq::empty(), Seq::empty())
    } else if b is Directory && a is Directory && b.name() == a.name() {
        sweep(b, a, join(parent, b.name()), 0, 0)
    } else {
        (files_of(a, parent), files_of(b, parent))
    }
}

/// The merge of the name-ordered children of directories `b` and `a` from
/// positions `i` and `j` on; `dir` is the path of the directory itself.
pub open spec fn sweep(b: FileSystemView, a: FileSystemView, dir: Seq<u8>, i: int, j: int) -> (
    Seq<Seq<u8>>,
    Seq<Seq<u8>>,
)
    decreases b, (b.entries().len() - i) + (a.entries().len() - j),
{
    match b {
        FileSystemView::Directory { entries: bs, .. } => match a {
            FileSystemView::Directory { entries: xs, .. } => {
                if i < 0 || j < 0 || i > bs.len() || j > xs.len() || (i == bs.len() && j
                    == xs.len()) {
                    (Seq::empty(), Seq::empty())
                } else if i == bs.len() {
                    let rest = sweep(b, a, dir, i, j + 1);
                    (files_of(xs[j], dir) + rest.0, rest.1)
                } else if j == xs.len() {
                    let rest = sweep(b, a, dir, i + 1, j);
                    (rest.0, files_of(bs[i], dir) + rest.1)
                } else {
                    let c = byte_cmp(bs[i].name(), xs[j].name());
                    if c < 0 {
                        let rest = sweep(b, a, dir, i + 1, j);
                        (rest.0, files_of(bs[i], dir) + rest.1)
                    } else if c > 0 {
                        let rest = sweep(b, a, dir, i, j + 1);
                        (files_of(xs[j], dir) + rest.0, rest.1)
                    } else {
                        let d = diff_of(bs[i], xs[j], dir);
                        let rest = sweep(b, a, dir, i + 1, j + 1);
                        (d.0 + rest.0, d.1 + rest.1)
                    }
                }
            },
            FileSystemView::File { .. } => (Seq::empty(), Seq::empty()),
        },
        FileSystemView::File { .. } => (Seq::empty(), Seq::empty()),
    }
}


/// The mathematical value of a raw scan entry.
pub struct ScanView {
    pub name: Seq<u8>,
    pub modify_time: ModTime,
    pub entries: Option<Seq<ScanView>>,
}

impl ScanEntry {
    pub open spec fn view_of(self) -> ScanView
        decreases self,
    {
        ScanView {
            name: self.name@,
            modify_time: self.modify_time,
            entries: match self.entries {
                Some(cs) => Some(
                    Seq::new(
                        cs@.len(),
                        |k: int|
                            if 0 <= k < cs@.len() {
                                cs@[k].view_of()
                            } else {
                                ScanView {
                                    name: Seq::empty(),
                                    modify_time: ModTime { secs: 0, nanos: 0 },
                                    entries: None,
                                }
                            },
                    ),
                ),
                None => None,
            },
        }
    }
}

impl View for ScanEntry {
    type V = ScanView;

    open spec fn view(&self) -> ScanView {
        self.view_of()
    }
}

/// The fingerprint of an entry with this name and modification time, and,
/// for a directory, this ordered list of distinct child fingerprints.
pub uninterp spec fn node_hash(
    name: Seq<u8>,
    secs: i64,
    nanos: u32,
    children: Option<Seq<u64>>,
) -> u64;

/// Relies on std's `BuildHasher::hash_one` over `DefaultHasher`, whose keys
/// are fixed: within one build of the program the value depends on the
/// hashed data alone.
#[verifier::external_body]
fn hash_node(name: &Vec<u8>, modify_time: ModTime, children: Option<&Vec<u64>>) -> (r: u64)
    ensures
        r == node_hash(
            name@,
            modify_time.secs,
            modify_time.nanos,
            match children {
                Some(c) => Some(c@),
                None => None,
            },
        ),
{
    let state = std::hash::BuildHasherDefault::<std::hash::DefaultHasher>::default();
    std::hash::BuildHasher::hash_one(
        &state,
        (name.as_slice(), modify_time.secs, modify_time.nanos, children.map(|c| c.as_slice())),
    )
}

/// The position at which a child named `name` goes among `s`, from `k` on:
/// before the first child whose name is greater.
pub open spec fn name_slot(s: Seq<FileSystemView>, name: Seq<u8>, k: int) -> int
    decreases s.len() - k,
{
    if k < 0 || k >= s.len() {
        s.len() as int
    } else if byte_cmp(s[k].name(), name) > 0 {
        k
    } else {
        name_slot(s, name, k + 1)
    }
}

/// The position at which `h` goes among `hs`, from `k` on: before the first
/// greater value.
pub open spec fn hash_slot(hs: Seq<u64>, h: u64, k: int) -> int
    decreases hs.len() - k,
{
    if k < 0 || k >= hs.len() {
        hs.len() as int
    } else if hs[k] > h {
        k
    } else {
        hash_slot(hs, h, k + 1)
    }
}

/// Adds child `c` to a directory's children and their fingerprint list,
/// unless a child of equal fingerprint is there already.
pub open spec fn add_child(st: (Seq<FileSystemView>, Seq<u64>), c: FileSystemView) -> (
    Seq<FileSystemView>,
    Seq<u64>,
) {
    if st.1.contains(c.hash()) {
        st
    } else {
        (
            st.0.insert(name_slot(st.0, c.name(), 0), c),
            st.1.insert(hash_slot(st.1, c.hash(), 0), c.hash()),
        )
    }
}

/// The children and the fingerprint list of a directory, from the first
/// `n` scanned children `cs`.
pub open spec fn add_children(cs: Seq<FileSystemView>, n: int) -> (
    Seq<FileSystemView>,
    Seq<u64>,
)
    decreases n,
{
    if n <= 0 || n > cs.len() {
        (Seq::empty(), Seq::empty())
    } else {
        add_child(add_children(cs, n - 1), cs[n - 1])
    }
}

/// The snapshot of a scanned entry. A file's fingerprint covers its name
/// and modification time; a directory's covers those and the ordered list
/// of its children's distinct fingerprints.
pub open spec fn scan_view(raw: ScanView) -> FileSystemView
    decreases raw,
{
    match raw.entries {
        None => FileSystemView::File {
            hash: node_hash(raw.name, raw.modify_time.secs, raw.modify_time.nanos, None),
            name: raw.name,
            modify_time: raw.modify_time,
        },
        Some(cs) => {
            let kids = scan_children(cs);
            let st = add_children(kids, kids.len() as int);
            FileSystemView::Directory {
                hash: node_hash(
                    raw.name,
                    raw.modify_time.secs,
                    raw.modify_time.nanos,
                    Some(st.1),
                ),
                name: raw.name,
                modify_time: raw.modify_time,
                entries: st.0,
            }
        },
    }
}

/// In every directory of the snapshot, the children are ordered by name
/// and no two of them have the same fingerprint.
pub open spec fn wf_view(v: FileSystemView) -> bool
    decreases v,
{
    match v {
        FileSystemView::File { .. } => true,
        FileSystemView::Directory { entries, .. } => {
            &&& names_ordered(entries)
            &&& hashes_distinct(entries)
            &&& forall|k: int| 0 <= k < entries.len() ==> wf_view(#[trigger] entries[k])
        },
    }
}

/// Each child's name is at most the next one's.
pub open spec fn names_ordered(s: Seq<FileSystemView>) -> bool {
    forall|k: int| 0 <= k < s.len() - 1 ==> byte_cmp(#[trigger] s[k].name(), s[k + 1].name()) <= 0
}

/// No two children have the same fingerprint.
pub open spec fn hashes_distinct(s: Seq<FileSystemView>) -> bool {
    forall|a: int, b: int|
        0 <= a < s.len() && 0 <= b < s.len() && a != b ==> #[trigger] s[a].hash() != #[trigger] s[b].hash()
}

/// The snapshots of a sequence of scanned entries, one for one.
pub open spec fn scan_children(cs: Seq<ScanView>) -> Seq<FileSystemView>
    decreases cs,
{
    Seq::new(
        cs.len(),
        |k: int|
            if 0 <= k < cs.len() {
                scan_view(cs[k])
            } else {
                FileSystemView::File {
                    hash: 0,
                    name: Seq::empty(),
                    modify_time: ModTime { secs: 0, nanos: 0 },
                }
            },
    )
}

/// The views of a sequence of snapshots.
pub open spec fn views(s: Seq<FileSystem>) -> Seq<FileSystemView> {
    Seq::new(s.len(), |k: int| s[k]@)
}

/// The snapshot that stands for "nothing scanned yet": an unnamed empty
/// directory with fingerprint 0.
pub open spec fn empty_view() -> FileSystemView {
    FileSystemView::Directory {
        hash: 0,
        name: Seq::empty(),
        modify_time: ModTime { secs: 0, nanos: 0 },
        entries: Seq::empty(),
    }
}

/// Whether two scans read the same tree, each directory's entries possibly
/// listed in another order: names and times agree, and the entries of each
/// directory correspond one for one (`perm`, with inverse `back`),
/// recursively.
pub open spec fn reordered(a: ScanView, b: ScanView) -> bool
    decreases a,
{
    &&& a.name == b.name
    &&& a.modify_time == b.modify_time
    &&& match a.entries {
        None => b.entries is None,
        Some(xs) => {
            &&& b.entries is Some
            &&& xs.len() == b.entries->Some_0.len()
            &&& exists|perm: Seq<int>, back: Seq<int>|
                {
                    &&& perm.len() == xs.len()
                    &&& back.len() == xs.len()
                    &&& forall|k: int|
                        0 <= k < xs.len() ==> 0 <= #[trigger] perm[k] < xs.len() && reordered(
                            xs[k],
                            b.entries->Some_0[perm[k]],
                        )
                    &&& forall|m: int|
                        0 <= m < xs.len() ==> 0 <= #[trigger] back[m] < xs.len() && perm[back[m]] == m
                }
        },
    }
}

/// Each value is smaller than every later one.
pub open spec fn strictly_increasing(s: Seq<u64>) -> bool {
    forall|i: int, j: int| 0 <= i < j < s.len() ==> s[i] < s[j]
}

proof fn lemma_hash_slot(hs: Seq<u64>, h: u64, k: int)
    requires
        0 <= k <= hs.len(),
        forall|q: int| 0 <= q < k ==> #[trigger] hs[q] <= h,
    ensures
        k <= hash_slot(hs, h, k) <= hs.len(),
        hash_slot(hs, h, k) < hs.len() ==> hs[hash_slot(hs, h, k)] > h,
        forall|q: int| 0 <= q < hash_slot(hs, h, k) ==> #[trigger] hs[q] <= h,
    decreases hs.len() - k,
{
    if k < hs.len() && hs[k] <= h {
        lemma_hash_slot(hs, h, k + 1);
    }
}

/// The fingerprint list of a directory is increasing and holds exactly the
/// fingerprints of its scanned children.
proof fn lemma_hash_list(cs: Seq<FileSystemView>, n: int)
    requires
        0 <= n <= cs.len(),
    ensures
        strictly_increasing(add_children(cs, n).1),
        forall|h: u64|
            #[trigger] add_children(cs, n).1.contains(h) <==> exists|k: int|
                0 <= k < n && cs[k].hash() == h,
    decreases n,
{
    if n > 0 {
        lemma_hash_list(cs, n - 1);
        let st = add_children(cs, n - 1);
        let c = cs[n - 1];
        let hs = st.1;
        if !hs.contains(c.hash()) {
            let h = c.hash();
            lemma_hash_slot(hs, h, 0);
            let q = hash_slot(hs, h, 0);
            let now = hs.insert(q, h);
            assert forall|i: int, j: int| 0 <= i < j < now.len() implies now[i] < now[j] by {
                if i < q {
                    assert(now[i] == hs[i]);
                    assert(hs[i] != h) by {
                        if hs[i] == h {
                            assert(hs.contains(h));
                        }
                    }
                }
                if j > q {
                    assert(now[j] == hs[j - 1]);
                }
                if i > q {
                    assert(now[i] == hs[i - 1]);
                }
                if j < q {
                    assert(now[j] == hs[j]);
                }
                if j > q && i < q {
                    if j - 1 > q {
                        assert(hs[q] > h);
                        assert(hs[q] < hs[j - 1]);
                    } else {
                        assert(hs[q] > h);
                    }
                }
                if i == q && j > q {
                    if j - 1 > q {
                        assert(hs[q] < hs[j - 1]);
                    }
                }
            }
            assert forall|x: u64| #[trigger] now.contains(x) <==> exists|k: int|
                0 <= k < n && cs[k].hash() == x by {
                if now.contains(x) {
                    let w = choose|w: int| 0 <= w < now.len() && now[w] == x;
                    if w < q {
                        assert(hs[w] == x);
                        assert(hs.contains(x));
                    } else if w > q {
                        assert(hs[w - 1] == x);
                        assert(hs.contains(x));
                    }
                }
                if exists|k: int| 0 <= k < n && cs[k].hash() == x {
                    let k = choose|k: int| 0 <= k < n && cs[k].hash() == x;
                    if k == n - 1 {
                        assert(now[q] == x);
                    } else {
                        assert(hs.contains(x));
                        let w = choose|w: int| 0 <= w < hs.len() && hs[w] == x;
                        if w < q {
                            assert(now[w] == x);
                        } else {
                            assert(now[w + 1] == x);
                        }
                    }
                }
            }
        } else {
            assert forall|x: u64| #[trigger] hs.contains(x) <==> exists|k: int|
                0 <= k < n && cs[k].hash() == x by {
                if exists|k: int| 0 <= k < n && cs[k].hash() == x {
                    let k = choose|k: int| 0 <= k < n && cs[k].hash() == x;
                    if k < n - 1 {
                        assert(exists|k2: int| 0 <= k2 < n - 1 && cs[k2].hash() == x);
                    }
                }
                if hs.contains(x) {
                    let k = choose|k: int| 0 <= k < n - 1 && cs[k].hash() == x;
                    assert(0 <= k < n && cs[k].hash() == x);
                }
            }
        }
    }
}

/// Two increasing sequences with the same elements are equal.
proof fn lemma_increasing_unique(s: Seq<u64>, t: Seq<u64>)
    requires
        strictly_increasing(s),
        strictly_increasing(t),
        forall|x: u64| s.contains(x) <==> t.contains(x),
    ensures
        s == t,
    decreases s.len(),
{
    if s.len() == 0 {
        if t.len() > 0 {
            assert(t.contains(t[0]));
        }
        assert(s =~= t);
    } else if t.len() == 0 {
        assert(s.contains(s[0]));
    } else {
        assert(s.contains(s[0]));
        assert(t.contains(t[0]));
        let i = choose|i: int| 0 <= i < t.len() && t[i] == s[0];
        let j = choose|j: int| 0 <= j < s.len() && s[j] == t[0];
        if i > 0 {
            assert(t[0] < t[i]);
        }
        if j > 0 {
            assert(s[0] < s[j]);
        }
        assert(s[0] == t[0]);
        let s1 = s.drop_first();
        let t1 = t.drop_first();
        assert forall|x: u64| s1.contains(x) <==> t1.contains(x) by {
            if s1.contains(x) {
                let a = choose|a: int| 0 <= a < s1.len() && s1[a] == x;
                assert(s[a + 1] == x && s.contains(x));
                let b = choose|b: int| 0 <= b < t.len() && t[b] == x;
                assert(s[0] < s[a + 1]);
                assert(b != 0);
                assert(t1[b - 1] == x);
            }
            if t1.contains(x) {
                let a = choose|a: int| 0 <= a < t1.len() && t1[a] == x;
                assert(t[a + 1] == x && t.contains(x));
                let b = choose|b: int| 0 <= b < s.len() && s[b] == x;
                assert(t[0] < t[a + 1]);
                assert(b != 0);
                assert(s1[b - 1] == x);
            }
        }
        lemma_increasing_unique(s1, t1);
        assert forall|i: int| 0 <= i < s.len() implies s[i] == t[i] by {
            if i > 0 {
                assert(s[i] == s1[i - 1] && t[i] == t1[i - 1]);
            }
        }
        assert(s =~= t);
    }
}

proof fn lemma_reordered_hash(a: ScanView, b: ScanView)
    requires
        reordered(a, b),
    ensures
        scan_view(a).hash() == scan_view(b).hash(),
    decreases a,
{
    match a.entries {
        None => {},
        Some(xs) => {
            let ys = b.entries->Some_0;
            let (perm, back) = choose|perm: Seq<int>, back: Seq<int>|
                {
                    &&& perm.len() == xs.len()
                    &&& back.len() == xs.len()
                    &&& forall|k: int|
                        0 <= k < xs.len() ==> 0 <= #[trigger] perm[k] < xs.len() && reordered(
                            xs[k],
                            ys[perm[k]],
                        )
                    &&& forall|m: int|
                        0 <= m < xs.len() ==> 0 <= #[trigger] back[m] < xs.len() && perm[back[m]] == m
                };
            let ka = scan_children(xs);
            let kb = scan_children(ys);
            assert forall|k: int| 0 <= k < xs.len() implies #[trigger] ka[k].hash() == kb[perm[k]].hash() by {
                lemma_reordered_hash(xs[k], ys[perm[k]]);
            }
            lemma_hash_list(ka, ka.len() as int);
            lemma_hash_list(kb, kb.len() as int);
            let la = add_children(ka, ka.len() as int).1;
            let lb = add_children(kb, kb.len() as int).1;
            assert forall|x: u64| la.contains(x) <==> lb.contains(x) by {
                if la.contains(x) {
                    let k = choose|k: int| 0 <= k < ka.len() && ka[k].hash() == x;
                    assert(ka[k].hash() == kb[perm[k]].hash());
                    assert(0 <= perm[k] < kb.len() && kb[perm[k]].hash() == x);
                }
                if lb.contains(x) {
                    let m = choose|m: int| 0 <= m < kb.len() && kb[m].hash() == x;
                    let k = back[m];
                    assert(ka[k].hash() == kb[perm[k]].hash());
                    assert(0 <= k < ka.len() && ka[k].hash() == x);
                }
            }
            lemma_increasing_unique(la, lb);
        },
    }
}

/// Listing order does not matter: two scans of the same tree, whatever
/// order each lists its directories' entries in, give snapshots of the same
/// fingerprint, and comparing them reports nothing added and nothing
/// removed.
pub proof fn lemma_rescan_unchanged(first: ScanView, second: ScanView, parent: Seq<u8>)
    requires
        reordered(first, second),
    ensures
        scan_view(first).hash() == scan_view(second).hash(),
        diff_of(scan_view(first), scan_view(second), parent) == (
            Seq::<Seq<u8>>::empty(),
            Seq::<Seq<u8>>::empty(),
        ),
{
    lemma_reordered_hash(first, second);
}

proof fn lemma_concat_contains(x: Seq<Seq<u8>>, y: Seq<Seq<u8>>)
    ensures
        forall|p: Seq<u8>| #[trigger] (x + y).contains(p) <==> x.contains(p) || y.contains(p),
{
    assert forall|p: Seq<u8>| #[trigger] (x + y).contains(p) implies x.contains(p) || y.contains(p) by {
        let k = choose|k: int| 0 <= k < (x + y).len() && (x + y)[k] == p;
        if k < x.len() {
            assert(x[k] == p);
        } else {
            assert(y[k - x.len()] == p);
        }
    }
    assert forall|p: Seq<u8>| x.contains(p) || y.contains(p) implies #[trigger] (x + y).contains(p) by {
        if x.contains(p) {
            let k = choose|k: int| 0 <= k < x.len() && x[k] == p;
            assert((x + y)[k] == p);
        } else {
            let k = choose|k: int| 0 <= k < y.len() && y[k] == p;
            assert((x + y)[x.len() + k] == p);
        }
    }
}

proof fn lemma_sweep_sound(
    b: FileSystemView,
    a: FileSystemView,
    parent: Seq<u8>,
    dir: Seq<u8>,
    i: int,
    j: int,
)
    requires
        b is Directory,
        a is Directory,
        dir == join(parent, a.name()),
        dir == join(parent, b.name()),
        0 <= i <= b.entries().len(),
        0 <= j <= a.entries().len(),
    ensures
        forall|p: Seq<u8>|
            #[trigger] sweep(b, a, dir, i, j).0.contains(p) ==> files_at(a, parent, j).contains(p),
        forall|p: Seq<u8>|
            #[trigger] sweep(b, a, dir, i, j).1.contains(p) ==> files_at(b, parent, i).contains(p),
    decreases b, (b.entries().len() - i) + (a.entries().len() - j),
{
    let bs = b.entries();
    let xs = a.entries();
    if i == bs.len() && j == xs.len() {
        return;
    }
    if i < bs.len() {
        lemma_concat_contains(files_of(bs[i], dir), files_at(b, parent, i + 1));
    }
    if j < xs.len() {
        lemma_concat_contains(files_of(xs[j], dir), files_at(a, parent, j + 1));
    }
    if i == bs.len() {
        let rest = sweep(b, a, dir, i, j + 1);
        lemma_sweep_sound(b, a, parent, dir, i, j + 1);
        lemma_concat_contains(files_of(xs[j], dir), rest.0);
    } else if j == xs.len() {
        let rest = sweep(b, a, dir, i + 1, j);
        lemma_sweep_sound(b, a, parent, dir, i + 1, j);
        lemma_concat_contains(files_of(bs[i], dir), rest.1);
    } else {
        let c = byte_cmp(bs[i].name(), xs[j].name());
        if c < 0 {
            let rest = sweep(b, a, dir, i + 1, j);
            lemma_sweep_sound(b, a, parent, dir, i + 1, j);
            lemma_concat_contains(files_of(bs[i], dir), rest.1);
        } else if c > 0 {
            let rest = sweep(b, a, dir, i, j + 1);
            lemma_sweep_sound(b, a, parent, dir, i, j + 1);
            lemma_concat_contains(files_of(xs[j], dir), rest.0);
        } else {
            let d = diff_of(bs[i], xs[j], dir);
            let rest = sweep(b, a, dir, i + 1, j + 1);
            lemma_diff_sound(bs[i], xs[j], dir);
            lemma_sweep_sound(b, a, parent, dir, i + 1, j + 1);
            lemma_concat_contains(d.0, rest.0);
            lemma_concat_contains(d.1, rest.1);
        }
    }
}

/// A comparison reports as added only leaf files of the after snapshot,
/// and as removed only leaf files of the before snapshot.
pub proof fn lemma_diff_sound(b: FileSystemView, a: FileSystemView, parent: Seq<u8>)
    ensures
        forall|p: Seq<u8>| #[trigger] diff_of(b, a, parent).0.contains(p) ==> files_of(a, parent).contains(p),
        forall|p: Seq<u8>| #[trigger] diff_of(b, a, parent).1.contains(p) ==> files_of(b, parent).contains(p),
    decreases b, b.entries().len() + a.entries().len() + 1,
{
    if b.hash() != a.hash() && b is Directory && a is Directory && b.name() == a.name() {
        let dir = join(parent, b.name());
        lemma_sweep_sound(b, a, parent, dir, 0, 0);
        let d = sweep(b, a, dir, 0, 0);
        assert(diff_of(b, a, parent) == d);
        assert forall|p: Seq<u8>| #[trigger] diff_of(b, a, parent).0.contains(p) implies files_of(
            a,
            parent,
        ).contains(p) by {
            assert(d.0.contains(p));
        }
        assert forall|p: Seq<u8>| #[trigger] diff_of(b, a, parent).1.contains(p) implies files_of(
            b,
            parent,
        ).contains(p) by {
            assert(d.1.contains(p));
        }
    }
}

proof fn lemma_sweep_shifted(
    b: FileSystemView,
    a: FileSystemView,
    dir: Seq<u8>,
    i: int,
    extra_after: bool,
)
    requires
        b is Directory,
        a is Directory,
        extra_after ==> a.entries().len() == b.entries().len() + 1,
        !extra_after ==> b.entries().len() == a.entries().len() + 1,
        extra_after ==> 0 <= i <= b.entries().len() && forall|k: int|
            i <= k < b.entries().len() ==> #[trigger] a.entries()[k + 1] == b.entries()[k],
        !extra_after ==> 0 <= i <= a.entries().len() && forall|k: int|
            i <= k < a.entries().len() ==> #[trigger] b.entries()[k + 1] == a.entries()[k],
    ensures
        extra_after ==> sweep(b, a, dir, i, i + 1) == (Seq::<Seq<u8>>::empty(), Seq::<Seq<u8>>::empty()),
        !extra_after ==> sweep(b, a, dir, i + 1, i) == (Seq::<Seq<u8>>::empty(), Seq::<Seq<u8>>::empty()),
    decreases b.entries().len() + a.entries().len() - 2 * i,
{
    let bs = b->Directory_entries;
    let xs = a->Directory_entries;
    let e = Seq::<Seq<u8>>::empty();
    if extra_after && i < bs.len() {
        lemma_sweep_shifted(b, a, dir, i + 1, extra_after);
        lemma_byte_cmp_same(bs[i].name());
        assert(xs[i + 1] == bs[i]);
        assert(diff_of(bs[i], xs[i + 1], dir) == (e, e));
        let rest = sweep(b, a, dir, i + 1, i + 2);
        assert(e + rest.0 =~= rest.0);
        assert(e + rest.1 =~= rest.1);
        assert(sweep(b, a, dir, i, i + 1) == (e + rest.0, e + rest.1));
    }
    if !extra_after && i < xs.len() {
        lemma_sweep_shifted(b, a, dir, i + 1, extra_after);
        lemma_byte_cmp_same(xs[i].name());
        assert(bs[i + 1] == xs[i]);
        assert(diff_of(bs[i + 1], xs[i], dir) == (e, e));
        let rest = sweep(b, a, dir, i + 2, i + 1);
        assert(e + rest.0 =~= rest.0);
        assert(e + rest.1 =~= rest.1);
        assert(sweep(b, a, dir, i + 1, i) == (e + rest.0, e + rest.1));
    }
}

proof fn lemma_sweep_aligned(
    b: FileSystemView,
    a: FileSystemView,
    dir: Seq<u8>,
    i: int,
    p: int,
    extra_after: bool,
    z: FileSystemView,
)
    requires
        b is Directory,
        a is Directory,
        0 <= i <= p,
        extra_after ==> p <= b.entries().len() && a.entries() == b.entries().insert(p, z),
        !extra_after ==> p <= a.entries().len() && b.entries() == a.entries().insert(p, z),
        extra_after && p < b.entries().len() ==> byte_cmp(b.entries()[p].name(), z.name()) > 0,
        !extra_after && p < a.entries().len() ==> byte_cmp(a.entries()[p].name(), z.name()) > 0,
    ensures
        extra_after ==> sweep(b, a, dir, i, i) == (files_of(z, dir), Seq::<Seq<u8>>::empty()),
        !extra_after ==> sweep(b, a, dir, i, i) == (Seq::<Seq<u8>>::empty(), files_of(z, dir)),
    decreases p - i,
{
    let bs = b->Directory_entries;
    let xs = a->Directory_entries;
    if i < p {
        let e = Seq::<Seq<u8>>::empty();
        lemma_sweep_aligned(b, a, dir, i + 1, p, extra_after, z);
        lemma_byte_cmp_same(bs[i].name());
        assert(bs[i] == xs[i]);
        assert(diff_of(bs[i], xs[i], dir) == (e, e));
        let rest = sweep(b, a, dir, i + 1, i + 1);
        assert(e + rest.0 =~= rest.0);
        assert(e + rest.1 =~= rest.1);
        assert(sweep(b, a, dir, i, i) == (e + rest.0, e + rest.1));
    } else {
        let e = Seq::<Seq<u8>>::empty();
        if extra_after {
            lemma_sweep_shifted(b, a, dir, p, true);
            assert(files_of(z, dir) + e =~= files_of(z, dir));
            assert(a.entries()[p] == z);
        } else {
            assert forall|k: int| p <= k < a.entries().len() implies #[trigger] b.entries()[k + 1]
                == a.entries()[k] by {}
            lemma_sweep_shifted(b, a, dir, p, false);
            assert(files_of(z, dir) + e =~= files_of(z, dir));
            assert(b.entries()[p] == z);
            if p < a.entries().len() {
                lemma_byte_cmp_flip(a.entries()[p].name(), z.name());
            }
        }
    }
}

/// Adding one entry to a directory: when the directory's fingerprint
/// changed and its children are the same but for `z`, inserted at position
/// `p` before every child of greater name, the comparison reports exactly
/// the leaf files of `z`, under the directory's path, as added, and
/// nothing as removed.
pub proof fn lemma_diff_one_added(
    b: FileSystemView,
    a: FileSystemView,
    parent: Seq<u8>,
    p: int,
    z: FileSystemView,
)
    requires
        b is Directory,
        a is Directory,
        b.name() == a.name(),
        b.hash() != a.hash(),
        0 <= p <= b.entries().len(),
        a.entries() == b.entries().insert(p, z),
        p < b.entries().len() ==> byte_cmp(b.entries()[p].name(), z.name()) > 0,
    ensures
        diff_of(b, a, parent) == (files_of(z, join(parent, b.name())), Seq::<Seq<u8>>::empty()),
{
    assert forall|k: int| p <= k < b.entries().len() implies #[trigger] a.entries()[k + 1]
        == b.entries()[k] by {}
    lemma_sweep_aligned(b, a, join(parent, b.name()), 0, p, true, z);
}

/// Removing one entry from a directory: when the directory's fingerprint
/// changed and its children are the same but for `x`, which stood at
/// position `p` before every child of greater name, the comparison reports
/// exactly the leaf files of `x`, under the directory's path, as removed,
/// and nothing as added.
pub proof fn lemma_diff_one_removed(
    b: FileSystemView,
    a: FileSystemView,
    parent: Seq<u8>,
    p: int,
    x: FileSystemView,
)
    requires
        b is Directory,
        a is Directory,
        b.name() == a.name(),
        b.hash() != a.hash(),
        0 <= p <= a.entries().len(),
        b.entries() == a.entries().insert(p, x),
        p < a.entries().len() ==> byte_cmp(a.entries()[p].name(), x.name()) > 0,
    ensures
        diff_of(b, a, parent) == (Seq::<Seq<u8>>::empty(), files_of(x, join(parent, b.name()))),
{
    lemma_sweep_aligned(b, a, join(parent, b.name()), 0, p, false, x);
}

impl Default for EntryData {
    fn default() -> (r: EntryData)
        ensures
            r.hash == 0,
            r.path@ == Seq::<u8>::empty(),
            r.modify_time == (ModTime { secs: 0, nanos: 0 }),
    {
        EntryData { hash: 0, path: Vec::new(), modify_time: ModTime { secs: 0, nanos: 0 } }
    }
}

impl Default for FileSystem {
    fn default() -> (r: FileSystem)
        ensures
            r@ == empty_view(),
    {
        FileSystem::empty()
    }
}

impl FileSystemDiff {
    pub open spec fn added_view(self) -> Seq<Seq<u8>> {
        paths_view(self.added@)
    }

    pub open spec fn removed_view(self) -> Seq<Seq<u8>> {
        paths_view(self.removed@)
    }
}

impl FileSystem {
    /// An unnamed empty directory with fingerprint 0.
    pub fn empty() -> (r: FileSystem)
        ensures
            r@ == empty_view(),
    {
        let r = FileSystem::Directory { info: EntryData::default(), entries: Vec::new() };
        assert(r@->Directory_entries =~= Seq::<FileSystemView>::empty());
        r
    }

    pub fn info(&self) -> (r: &EntryData)
        ensures
            r.hash == self@.hash(),
            r.path@ == self@.name(),
            r.modify_time == self@.modify_time(),
    {
        match self {
            FileSystem::Directory { info, .. } => info,
            FileSystem::File { info } => info,
        }
    }

    pub fn get_hash(&self) -> (r: u64)
        ensures
            r == self@.hash(),
    {
        self.info().hash
    }

    proof fn lemma_name_slot(s: Seq<FileSystemView>, name: Seq<u8>, k: int)
        requires
            0 <= k <= s.len(),
            forall|q: int| 0 <= q < k ==> byte_cmp(#[trigger] s[q].name(), name) <= 0,
        ensures
            k <= name_slot(s, name, k) <= s.len(),
            name_slot(s, name, k) < s.len() ==> byte_cmp(s[name_slot(s, name, k)].name(), name) > 0,
            forall|q: int| 0 <= q < name_slot(s, name, k) ==> byte_cmp(#[trigger] s[q].name(), name) <= 0,
        decreases s.len() - k,
    {
        if k < s.len() && byte_cmp(s[k].name(), name) <= 0 {
            FileSystem::lemma_name_slot(s, name, k + 1);
        }
    }

    #[verifier::spinoff_prover]
    #[verifier::rlimit(40)]
    proof fn lemma_add_child(
        before: Seq<FileSystemView>,
        old_hashes: Seq<u64>,
        p: int,
        q: int,
        cv: FileSystemView,
    )
        requires
            0 <= p <= before.len(),
            0 <= q <= old_hashes.len(),
            p == name_slot(before, cv.name(), 0),
            p < before.len() ==> byte_cmp(before[p].name(), cv.name()) > 0,
            forall|k: int| 0 <= k < p ==> byte_cmp(#[trigger] before[k].name(), cv.name()) <= 0,
            names_ordered(before),
            hashes_distinct(before),
            forall|k: int| 0 <= k < before.len() ==> wf_view(#[trigger] before[k]),
            forall|k: int| 0 <= k < before.len() ==> old_hashes.contains(#[trigger] before[k].hash()),
            !old_hashes.contains(cv.hash()),
            wf_view(cv),
        ensures
            names_ordered(before.insert(p, cv)),
            hashes_distinct(before.insert(p, cv)),
            forall|k: int| 0 <= k < before.len() + 1 ==> wf_view(#[trigger] before.insert(p, cv)[k]),
            forall|k: int|
                0 <= k < before.len() + 1 ==> old_hashes.insert(q, cv.hash()).contains(
                    #[trigger] before.insert(p, cv)[k].hash(),
                ),
    {
        let now = before.insert(p, cv);
        let h = cv.hash();
        let hashes = old_hashes.insert(q, h);
        assert forall|k: int| 0 <= k < now.len() - 1 implies byte_cmp(
            #[trigger] now[k].name(),
            now[k + 1].name(),
        ) <= 0 by {
            if k + 1 < p {
                assert(now[k] == before[k] && now[k + 1] == before[k + 1]);
            } else if k + 1 == p {
                assert(now[k] == before[k] && now[k + 1] == cv);
            } else if k == p {
                assert(now[k] == cv && now[k + 1] == before[k]);
                lemma_byte_cmp_flip(cv.name(), before[k].name());
            } else {
                assert(now[k] == before[k - 1] && now[k + 1] == before[k]);
            }
        }
        assert forall|a: int, b: int|
            0 <= a < now.len() && 0 <= b < now.len() && a != b implies #[trigger] now[a].hash()
            != #[trigger] now[b].hash() by {
            if a != p && b != p {
                let a0 = if a < p { a } else { a - 1 };
                let b0 = if b < p { b } else { b - 1 };
                assert(now[a] == before[a0] && now[b] == before[b0]);
            } else if a == p {
                let b0 = if b < p { b } else { b - 1 };
                assert(now[b] == before[b0]);
                assert(old_hashes.contains(before[b0].hash()));
            } else {
                let a0 = if a < p { a } else { a - 1 };
                assert(now[a] == before[a0]);
                assert(old_hashes.contains(before[a0].hash()));
            }
        }
        assert forall|k: int| 0 <= k < now.len() implies #[trigger] hashes.contains(
            now[k].hash(),
        ) by {
            if k == p {
                assert(hashes[q] == h);
            } else {
                let k0 = if k < p { k } else { k - 1 };
                assert(now[k] == before[k0]);
                assert(old_hashes.contains(before[k0].hash()));
                let w = choose|w: int| 0 <= w < old_hashes.len() && old_hashes[w] == before[k0].hash();
                let w1 = if w < q { w } else { w + 1 };
                assert(hashes[w1] == old_hashes[w]);
            }
        }
        assert forall|k: int| 0 <= k < now.len() implies wf_view(#[trigger] now[k]) by {
            if k != p {
                let k0 = if k < p { k } else { k - 1 };
                assert(now[k] == before[k0]);
            }
        }
    }

    /// The position among `entries` at which a child named `name` goes.
    fn name_slot_in(entries: &Vec<FileSystem>, name: &Vec<u8>) -> (r: usize)
        ensures
            r as int == name_slot(views(entries@), name@, 0),
            r <= entries@.len(),
    {
        let mut k: usize = 0;
        while k < entries.len()
            invariant
                0 <= k <= entries@.len(),
                name_slot(views(entries@), name@, 0) == name_slot(views(entries@), name@, k as int),
            decreases entries.len() - k,
        {
            assert(views(entries@)[k as int] == entries@[k as int]@);
            if compare_bytes(&entries[k].info().path, name) > 0 {
                return k;
            }
            k = k + 1;
        }
        k
    }

    /// Builds the snapshot of a scanned entry, computing every fingerprint.
    pub fn from_scan(raw: &ScanEntry) -> (r: FileSystem)
        ensures
            r@ == scan_view(raw@),
            wf_view(r@),
        decreases raw,
    {
        match &raw.entries {
            None => {
                let hash = hash_node(&raw.name, raw.modify_time, None);
                let r = FileSystem::File {
                    info: EntryData {
                        hash,
                        path: copy_bytes(&raw.name),
                        modify_time: raw.modify_time,
                    },
                };
                assert(r@ == scan_view(raw@));
                r
            },
            Some(cs) => {
                let ghost kids = scan_children(raw@.entries->Some_0);
                let mut entries: Vec<FileSystem> = Vec::new();
                let mut hashes: Vec<u64> = Vec::new();
                let mut i: usize = 0;
                while i < cs.len()
                    invariant
                        0 <= i <= cs@.len(),
                        raw.entries == Some(*cs),
                        (views(entries@), hashes@) == add_children(kids, i as int),
                        names_ordered(views(entries@)),
                        hashes_distinct(views(entries@)),
                        forall|q: int| 0 <= q < entries@.len() ==> wf_view(#[trigger] views(entries@)[q]),
                        forall|q: int| 0 <= q < entries@.len() ==> hashes@.contains(#[trigger] views(entries@)[q].hash()),
                        kids.len() == cs@.len(),
                        forall|k: int| 0 <= k < cs@.len() ==> #[trigger] kids[k] == scan_view(cs@[k]@),
                    decreases cs.len() - i,
                {
                    proof {
                        assert(decreases_to!(*raw => raw.entries));
                        assert(decreases_to!(raw.entries => raw.entries->Some_0));
                        assert(decreases_to!(*cs => cs@));
                        assert(decreases_to!(cs@ => cs@[i as int]));
                    }
                    let child = FileSystem::from_scan(&cs[i]);
                    let h = child.get_hash();
                    let mut seen = false;
                    let mut m: usize = 0;
                    while m < hashes.len()
                        invariant
                            0 <= m <= hashes@.len(),
                            seen == (exists|q: int| 0 <= q < m && hashes@[q] == h),
                        decreases hashes.len() - m,
                    {
                        if hashes[m] == h {
                            seen = true;
                        }
                        m = m + 1;
                    }
                    assert(seen == hashes@.contains(h));
                    let ghost before = (views(entries@), hashes@);
                    if !seen {
                        let p = FileSystem::name_slot_in(&entries, &child.info().path);
                        let mut q: usize = 0;
                        while q < hashes.len() && hashes[q] <= h
                            invariant
                                0 <= q <= hashes@.len(),
                                hash_slot(hashes@, h, 0) == hash_slot(hashes@, h, q as int),
                            decreases hashes.len() - q,
                        {
                            q = q + 1;
                        }
                        let ghost cv = child@;
                        let ghost old_hashes = hashes@;
                        assert(hash_slot(hashes@, h, q as int) == q);
                        proof {
                            FileSystem::lemma_name_slot(before.0, cv.name(), 0);
                        }
                        entries.insert(p, child);
                        hashes.insert(q, h);
                        let ghost now = views(entries@);
                        assert(now =~= before.0.insert(p as int, cv));
                        proof {
                            FileSystem::lemma_add_child(before.0, old_hashes, p as int, q as int, cv);
                        }
                    }
                    assert(kids[i as int] == scan_view(cs@[i as int]@));
                    assert(add_children(kids, i + 1) == add_child(add_children(kids, i as int), kids[i as int]));
                    i = i + 1;
                }
                let hash = hash_node(&raw.name, raw.modify_time, Some(&hashes));
                let r = FileSystem::Directory {
                    info: EntryData {
                        hash,
                        path: copy_bytes(&raw.name),
                        modify_time: raw.modify_time,
                    },
                    entries,
                };
                proof {
                    assert(r@->Directory_entries =~= views(entries@));
                }
                assert(wf_view(r@));
                r
            },
        }
    }

    /// The full paths of all leaf files in this node, which sits in directory
    /// `parent`.
    pub fn files(&self, parent: &Vec<u8>) -> (r: Vec<Vec<u8>>)
        ensures
            paths_view(r@) == files_of(self@, parent@),
        decreases self,
    {
        let path = join_path(parent, &self.info().path);
        match self {
            FileSystem::File { .. } => {
                let r = vec![path];
                assert(paths_view(r@) =~= files_of(self@, parent@));
                r
            },
            FileSystem::Directory { info, entries } => {
                let mut out: Vec<Vec<u8>> = Vec::new();
                let mut i: usize = 0;
                while i < entries.len()
                    invariant
                        0 <= i <= entries@.len(),
                        *self == (FileSystem::Directory { info: *info, entries: *entries }),
                        path@ == join(parent@, self@.name()),
                        paths_view(out@) + files_at(self@, parent@, i as int) == files_of(
                            self@,
                            parent@,
                        ),
                    decreases entries.len() - i,
                {
                    proof {
                        assert(decreases_to!(*self => (*self)->Directory_entries));
                        assert(decreases_to!(*entries => entries@));
                        assert(decreases_to!(entries@ => entries@[i as int]));
                        assert(self@.entries()[i as int] == entries@[i as int]@);
                    }
                    let mut sub = entries[i].files(&path);
                    proof {
                        lemma_paths_view_concat(out@, sub@);
                        assert(files_at(self@, parent@, i as int) == files_of(
                            entries@[i as int]@,
                            path@,
                        ) + files_at(self@, parent@, i + 1));
                    }
                    out.append(&mut sub);
                    i = i + 1;
                }
                assert(files_at(self@, parent@, i as int) =~= Seq::empty());
                assert(paths_view(out@) =~= paths_view(out@) + Seq::<Seq<u8>>::empty());
                out
            },
        }
    }

    /// Compares this snapshot (before) with `after`, both sitting in
    /// directory `parent`: the leaf paths only in `after` are added, those
    /// only in `self` removed.
    pub fn diff(&self, after: &FileSystem, parent: &Vec<u8>) -> (r: FileSystemDiff)
        ensures
            (r.added_view(), r.removed_view()) == diff_of(self@, after@, parent@),
        decreases self,
    {
        if self.get_hash() == after.get_hash() {
            let r = FileSystemDiff { added: Vec::new(), removed: Vec::new() };
            assert(r.added_view() =~= Seq::empty());
            assert(r.removed_view() =~= Seq::empty());
            return r;
        }
        match self {
            FileSystem::Directory { info: info_b, entries: entries_b } => match after {
                FileSystem::Directory { info: info_a, entries: entries_a } => {
                    if bytes_equal(&info_b.path, &info_a.path) {
                        let dir = join_path(parent, &info_b.path);
                        self.sweep_children(after, info_b, entries_b, info_a, entries_a, &dir)
                    } else {
                        FileSystemDiff { removed: self.files(parent), added: after.files(parent) }
                    }
                },
                FileSystem::File { .. } => FileSystemDiff {
                    removed: self.files(parent),
                    added: after.files(parent),
                },
            },
            FileSystem::File { .. } => FileSystemDiff {
                removed: self.files(parent),
                added: after.files(parent),
            },
        }
    }

    /// The merge step of `diff` for two directories of the same name, whose
    /// own path is `dir`.
    fn sweep_children(
        &self,
        after: &FileSystem,
        info_b: &EntryData,
        entries_b: &Vec<FileSystem>,
        info_a: &EntryData,
        entries_a: &Vec<FileSystem>,
        dir: &Vec<u8>,
    ) -> (r: FileSystemDiff)
        requires
            *self == (FileSystem::Directory { info: *info_b, entries: *entries_b }),
            *after == (FileSystem::Directory { info: *info_a, entries: *entries_a }),
        ensures
            (r.added_view(), r.removed_view()) == sweep(self@, after@, dir@, 0, 0),
        decreases self, 0nat,
    {
        let mut added: Vec<Vec<u8>> = Vec::new();
        let mut removed: Vec<Vec<u8>> = Vec::new();
        let mut i: usize = 0;
        let mut j: usize = 0;
        while i < entries_b.len() || j < entries_a.len()
            invariant
                0 <= i <= entries_b@.len(),
                0 <= j <= entries_a@.len(),
                *self == (FileSystem::Directory { info: *info_b, entries: *entries_b }),
                *after == (FileSystem::Directory { info: *info_a, entries: *entries_a }),
                paths_view(added@) + sweep(self@, after@, dir@, i as int, j as int).0 == sweep(
                    self@,
                    after@,
                    dir@,
                    0,
                    0,
                ).0,
                paths_view(removed@) + sweep(self@, after@, dir@, i as int, j as int).1 == sweep(
                    self@,
                    after@,
                    dir@,
                    0,
                    0,
                ).1,
            decreases (entries_b.len() - i) + (entries_a.len() - j),
        {
            let ghost rest_before = sweep(self@, after@, dir@, i as int, j as int);
            proof {
                if i < entries_b.len() {
                    assert(self@.entries()[i as int] == entries_b@[i as int]@);
                }
                if j < entries_a.len() {
                    assert(after@.entries()[j as int] == entries_a@[j as int]@);
                }
            }
            if i == entries_b.len() {
                let mut f = entries_a[j].files(dir);
                proof {
                    lemma_paths_view_concat(added@, f@);
                    assert(paths_view(added@) + rest_before.0 =~= paths_view(added@) + paths_view(f@)
                        + sweep(self@, after@, dir@, i as int, j + 1).0);
                }
                added.append(&mut f);
                j = j + 1;
            } else if j == entries_a.len() {
                let mut f = entries_b[i].files(dir);
                proof {
                    lemma_paths_view_concat(removed@, f@);
                    assert(paths_view(removed@) + rest_before.1 =~= paths_view(removed@) + paths_view(
                        f@,
                    ) + sweep(self@, after@, dir@, i + 1, j as int).1);
                }
                removed.append(&mut f);
                i = i + 1;
            } else {
                let c = compare_bytes(&entries_b[i].info().path, &entries_a[j].info().path);
                if c < 0 {
                    let mut f = entries_b[i].files(dir);
                    proof {
                        lemma_paths_view_concat(removed@, f@);
                        assert(paths_view(removed@) + rest_before.1 =~= paths_view(removed@)
                            + paths_view(f@) + sweep(self@, after@, dir@, i + 1, j as int).1);
                    }
                    removed.append(&mut f);
                    i = i + 1;
                } else if c > 0 {
                    let mut f = entries_a[j].files(dir);
                    proof {
                        lemma_paths_view_concat(added@, f@);
                        assert(paths_view(added@) + rest_before.0 =~= paths_view(added@)
                            + paths_view(f@) + sweep(self@, after@, dir@, i as int, j + 1).0);
                    }
                    added.append(&mut f);
                    j = j + 1;
                } else {
                    proof {
                        assert(decreases_to!(*self => (*self)->Directory_entries));
                        assert(decreases_to!(*entries_b => entries_b@));
                        assert(decreases_to!(entries_b@ => entries_b@[i as int]));
                    }
                    let mut d = entries_b[i].diff(&entries_a[j], dir);
                    proof {
                        lemma_paths_view_concat(added@, d.added@);
                        lemma_paths_view_concat(removed@, d.removed@);
                        let rest = sweep(self@, after@, dir@, i + 1, j + 1);
                        assert(paths_view(added@) + rest_before.0 =~= paths_view(added@)
                            + paths_view(d.added@) + rest.0);
                        assert(paths_view(removed@) + rest_before.1 =~= paths_view(removed@)
                            + paths_view(d.removed@) + rest.1);
                    }
                    added.append(&mut d.added);
                    removed.append(&mut d.removed);
                    i = i + 1;
                    j = j + 1;
                }
            }
        }
        proof {
            let end = sweep(self@, after@, dir@, i as int, j as int);
            assert(end.0 =~= Seq::empty());
            assert(end.1 =~= Seq::empty());
            assert(paths_view(added@) =~= paths_view(added@) + end.0);
            assert(paths_view(removed@) =~= paths_view(removed@) + end.1);
        }
        FileSystemDiff { added, removed }
    }
}

} // verus!
