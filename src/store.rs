use vstd::prelude::*;

use crate::bytes::{bytes_equal, copy_bytes, paths_view};

verus! {

/// An image record: its identifier, the fingerprint of its preview, and the
/// path of the stored image file.
pub struct Entry {
    pub id: String,
    pub fingerprint: u128,
    pub path: Vec<u8>,
}

pub struct EntryView {
    pub id: Seq<char>,
    pub fingerprint: u128,
    pub path: Seq<u8>,
}

impl View for Entry {
    type V = EntryView;

    open spec fn view(&self) -> EntryView {
        EntryView { id: self.id@, fingerprint: self.fingerprint, path: self.path@ }
    }
}

pub open spec fn entries_view(s: Seq<Entry>) -> Seq<EntryView> {
    s.map_values(|e: Entry| e@)
}

/// Why a store operation did not go through.
#[derive(Clone, Copy, Debug, PartialEq, Eq, Structural)]
pub enum StoreError {
    /// No entry has the identifier asked for.
    NotFound,
    /// A batch would give two entries the same identifier; nothing of it
    /// was committed.
    DuplicateId,
}

/// No two entries share an identifier, and no two share a fingerprint.
pub open spec fn rows_wf(rows: Seq<EntryView>) -> bool {
    forall|i: int, j: int|
        0 <= i < rows.len() && 0 <= j < rows.len() && i != j ==> rows[i].id != rows[j].id
            && rows[i].fingerprint != rows[j].fingerprint
}

/// Whether some entry of `rows` has fingerprint `fp`.
pub open spec fn has_fingerprint(rows: Seq<EntryView>, fp: u128) -> bool {
    exists|k: int| 0 <= k < rows.len() && rows[k].fingerprint == fp
}

/// For each entry of a batch, whether its fingerprint is stored already.
pub open spec fn presence(rows: Seq<EntryView>, batch: Seq<EntryView>) -> Seq<bool> {
    Seq::new(batch.len(), |i: int| has_fingerprint(rows, batch[i].fingerprint))
}

/// Which of the first `n` entries of a batch are new content: an entry is
/// new when its fingerprint is neither stored (`present`) nor held by an
/// earlier new entry of the same batch.
pub open spec fn accepted(batch: Seq<EntryView>, present: Seq<bool>, n: int) -> Seq<bool>
    decreases n,
{
    if n <= 0 {
        Seq::empty()
    } else {
        let prev = accepted(batch, present, n - 1);
        prev.push(
            !present[n - 1] && !(exists|j: int|
                0 <= j < n - 1 && prev[j] && batch[j].fingerprint == batch[n - 1].fingerprint),
        )
    }
}

pub proof fn lemma_accepted_len(batch: Seq<EntryView>, present: Seq<bool>, n: int)
    requires
        n >= 0,
    ensures
        accepted(batch, present, n).len() == n,
    decreases n,
{
    if n > 0 {
        lemma_accepted_len(batch, present, n - 1);
    }
}

/// The entries among the first `n` of a batch that `acc` marks, in order.
pub open spec fn selected(batch: Seq<EntryView>, acc: Seq<bool>, n: int) -> Seq<EntryView>
    decreases n,
{
    if n <= 0 {
        Seq::empty()
    } else if acc[n - 1] {
        selected(batch, acc, n - 1).push(batch[n - 1])
    } else {
        selected(batch, acc, n - 1)
    }
}

/// The entries of `batch` that an insertion into `rows` commits.
pub open spec fn new_rows(rows: Seq<EntryView>, batch: Seq<EntryView>) -> Seq<EntryView> {
    selected(batch, accepted(batch, presence(rows, batch), batch.len() as int), batch.len() as int)
}

/// Whether committing `fresh` after `rows` would repeat an identifier.
pub open spec fn id_clash(rows: Seq<EntryView>, fresh: Seq<EntryView>) -> bool {
    (exists|i: int, k: int| 0 <= i < fresh.len() && 0 <= k < rows.len() && fresh[i].id == rows[k].id)
        || (exists|i: int, j: int| 0 <= i < j < fresh.len() && fresh[i].id == fresh[j].id)
}

/// The identifier's path, from the first entry on that has it.
pub open spec fn find_path(rows: Seq<EntryView>, id: Seq<char>, k: int) -> Option<Seq<u8>>
    decreases rows.len() - k,
{
    if k < 0 || k >= rows.len() {
        None
    } else if rows[k].id == id {
        Some(rows[k].path)
    } else {
        find_path(rows, id, k + 1)
    }
}

/// The path stored for identifier `id`, if any.
pub open spec fn lookup(rows: Seq<EntryView>, id: Seq<char>) -> Option<Seq<u8>> {
    find_path(rows, id, 0)
}

/// The first `n` entries of `rows` without those stored at `path`.
pub open spec fn kept(rows: Seq<EntryView>, path: Seq<u8>, n: int) -> Seq<EntryView>
    decreases n,
{
    if n <= 0 {
        Seq::empty()
    } else if rows[n - 1].path == path {
        kept(rows, path, n - 1)
    } else {
        kept(rows, path, n - 1).push(rows[n - 1])
    }
}

/// The identifiers of the entries among the first `n` of `rows` that are
/// stored at `path`, in order.
pub open spec fn dropped(rows: Seq<EntryView>, path: Seq<u8>, n: int) -> Seq<Seq<char>>
    decreases n,
{
    if n <= 0 {
        Seq::empty()
    } else if rows[n - 1].path == path {
        dropped(rows, path, n - 1).push(rows[n - 1].id)
    } else {
        dropped(rows, path, n - 1)
    }
}

/// The entries left, and the identifiers deleted, after deleting the
/// entries stored at the first `n` of `paths`, one path after the other.
pub open spec fn delete_paths(rows: Seq<EntryView>, paths: Seq<Seq<u8>>, n: int) -> (
    Seq<EntryView>,
    Seq<Seq<char>>,
)
    decreases n,
{
    if n <= 0 {
        (rows, Seq::empty())
    } else {
        let prev = delete_paths(rows, paths, n - 1);
        (
            kept(prev.0, paths[n - 1], prev.0.len() as int),
            prev.1 + dropped(prev.0, paths[n - 1], prev.0.len() as int),
        )
    }
}

/// What an insertion reports for each entry of `batch`, given which are
/// new: the entry's path, with its fingerprint and identifier when it was
/// committed.
pub open spec fn insert_report(batch: Seq<EntryView>, acc: Seq<bool>) -> Seq<(Seq<u8>, Option<(u128, Seq<char>)>)> {
    Seq::new(
        batch.len(),
        |i: int|
            (batch[i].path, if acc[i] {
                Some((batch[i].fingerprint, batch[i].id))
            } else {
                None
            }),
    )
}

pub open spec fn report_view(out: Seq<(Vec<u8>, Option<(u128, String)>)>) -> Seq<(Seq<u8>, Option<(u128, Seq<char>)>)> {
    out.map_values(
        |t: (Vec<u8>, Option<(u128, String)>)|
            (t.0@, match t.1 {
                Some(c) => Some((c.0, c.1@)),
                None => None,
            }),
    )
}

pub open spec fn ids_view(ids: Seq<String>) -> Seq<Seq<char>> {
    ids.map_values(|s: String| s@)
}

proof fn lemma_accepted_prefix(batch: Seq<EntryView>, present: Seq<bool>, m: int, n: int, i: int)
    requires
        0 <= i < m <= n,
    ensures
        accepted(batch, present, n)[i] == accepted(batch, present, m)[i],
    decreases n,
{
    if n > m {
        lemma_accepted_len(batch, present, n - 1);
        lemma_accepted_prefix(batch, present, m, n - 1, i);
    }
}

proof fn lemma_selected_contains(batch: Seq<EntryView>, acc: Seq<bool>, n: int, f: int)
    requires
        0 <= f < n <= acc.len(),
        n <= batch.len(),
        acc[f],
    ensures
        selected(batch, acc, n).contains(batch[f]),
    decreases n,
{
    if f == n - 1 {
        assert(selected(batch, acc, n).last() == batch[f]);
    } else {
        lemma_selected_contains(batch, acc, n - 1, f);
        let prev = selected(batch, acc, n - 1);
        let k = choose|k: int| 0 <= k < prev.len() && prev[k] == batch[f];
        if acc[n - 1] {
            assert(selected(batch, acc, n)[k] == batch[f]);
        }
    }
}

proof fn lemma_kept(rows: Seq<EntryView>, path: Seq<u8>, n: int)
    requires
        rows_wf(rows),
        0 <= n <= rows.len(),
    ensures
        rows_wf(kept(rows, path, n)),
        forall|a: int|
            0 <= a < kept(rows, path, n).len() ==> exists|j: int|
                0 <= j < n && #[trigger] kept(rows, path, n)[a] == rows[j] && rows[j].path != path,
    decreases n,
{
    if n > 0 {
        lemma_kept(rows, path, n - 1);
        let prev = kept(rows, path, n - 1);
        if rows[n - 1].path != path {
            let cur = kept(rows, path, n);
            assert forall|a: int| 0 <= a < cur.len() implies exists|j: int|
                0 <= j < n && #[trigger] cur[a] == rows[j] && rows[j].path != path by {
                if a < prev.len() {
                    assert(cur[a] == prev[a]);
                } else {
                    assert(cur[a] == rows[n - 1]);
                }
            }
            assert forall|a: int, b: int|
                0 <= a < cur.len() && 0 <= b < cur.len() && a != b implies cur[a].id != cur[b].id
                && cur[a].fingerprint != cur[b].fingerprint by {
                if a < prev.len() && b < prev.len() {
                    assert(cur[a] == prev[a] && cur[b] == prev[b]);
                } else if a < prev.len() {
                    assert(cur[a] == prev[a]);
                    let j = choose|j: int| 0 <= j < n - 1 && prev[a] == rows[j] && rows[j].path != path;
                    assert(cur[b] == rows[n - 1]);
                } else {
                    assert(cur[b] == prev[b]);
                    let j = choose|j: int| 0 <= j < n - 1 && prev[b] == rows[j] && rows[j].path != path;
                    assert(cur[a] == rows[n - 1]);
                }
            }
        } else {
            assert forall|a: int| 0 <= a < prev.len() implies exists|j: int|
                0 <= j < n && #[trigger] prev[a] == rows[j] && rows[j].path != path by {
                let j = choose|j: int| 0 <= j < n - 1 && prev[a] == rows[j] && rows[j].path != path;
            }
        }
    }
}

proof fn lemma_find_unique(rows: Seq<EntryView>, k: int, j: int)
    requires
        rows_wf(rows),
        0 <= j <= k < rows.len(),
    ensures
        find_path(rows, rows[k].id, j) == Some(rows[k].path),
    decreases k - j,
{
    if j < k {
        lemma_find_unique(rows, k, j + 1);
    }
}

proof fn lemma_find_absent(rows: Seq<EntryView>, id: Seq<char>, j: int)
    requires
        forall|a: int| 0 <= a < rows.len() ==> rows[a].id != id,
    ensures
        find_path(rows, id, j) == None::<Seq<u8>>,
    decreases rows.len() - j,
{
    if 0 <= j < rows.len() {
        lemma_find_absent(rows, id, j + 1);
    }
}

/// A committed entry is found by its identifier, with the very path it was
/// committed with; once the entries at that path are deleted, looking the
/// identifier up finds nothing.
pub proof fn lemma_round_trip(rows: Seq<EntryView>, k: int)
    requires
        rows_wf(rows),
        0 <= k < rows.len(),
    ensures
        lookup(rows, rows[k].id) == Some(rows[k].path),
        lookup(delete_paths(rows, seq![rows[k].path], 1).0, rows[k].id) == None::<Seq<u8>>,
{
    lemma_find_unique(rows, k, 0);
    let paths = seq![rows[k].path];
    assert(delete_paths(rows, paths, 0) == (rows, Seq::<Seq<char>>::empty()));
    let left = delete_paths(rows, paths, 1).0;
    assert(left == kept(rows, rows[k].path, rows.len() as int));
    lemma_kept(rows, rows[k].path, rows.len() as int);
    assert forall|a: int| 0 <= a < left.len() implies left[a].id != rows[k].id by {
        let j = choose|j: int| 0 <= j < rows.len() && left[a] == rows[j] && rows[j].path != rows[k].path;
    }
    lemma_find_absent(left, rows[k].id, 0);
}

/// Of two entries of one batch with the same fingerprint, the later one is
/// never committed; and after the batch, the store holds an entry with
/// that fingerprint (exactly one, since a committed store has no two
/// entries of one fingerprint). When the fingerprint is new and the earlier
/// entry is its first in the batch, that earlier entry is the one
/// committed.
pub proof fn lemma_dedup(rows: Seq<EntryView>, batch: Seq<EntryView>, i: int, j: int)
    requires
        0 <= i < j < batch.len(),
        batch[i].fingerprint == batch[j].fingerprint,
    ensures
        !accepted(batch, presence(rows, batch), batch.len() as int)[j],
        has_fingerprint(rows + new_rows(rows, batch), batch[j].fingerprint),
        !has_fingerprint(rows, batch[i].fingerprint) && (forall|k: int|
            0 <= k < i ==> #[trigger] batch[k].fingerprint != batch[i].fingerprint) ==> accepted(
            batch,
            presence(rows, batch),
            batch.len() as int,
        )[i],
{
    let present = presence(rows, batch);
    let n = batch.len() as int;
    let acc = accepted(batch, present, n);
    lemma_accepted_len(batch, present, n);
    lemma_accepted_len(batch, present, j);
    lemma_accepted_len(batch, present, i);
    lemma_accepted_prefix(batch, present, j + 1, n, j);
    lemma_accepted_prefix(batch, present, i + 1, n, i);
    let fp = batch[j].fingerprint;
    let all = rows + new_rows(rows, batch);
    if present[j] {
        let k = choose|k: int| 0 <= k < rows.len() && rows[k].fingerprint == fp;
        assert(all[k] == rows[k]);
    } else {
        // the earliest new entry of this fingerprint, at or before `i`
        let f = if acc[i] {
            i
        } else {
            choose|q: int|
                0 <= q < i && accepted(batch, present, i)[q] && batch[q].fingerprint == batch[i].fingerprint
        };
        if f < i {
            lemma_accepted_prefix(batch, present, i, n, f);
        }
        assert(acc[f]);
        lemma_accepted_prefix(batch, present, j, n, f);
        assert(accepted(batch, present, j)[f]);
        lemma_selected_contains(batch, acc, n, f);
        let sel = new_rows(rows, batch);
        let q = choose|q: int| 0 <= q < sel.len() && sel[q] == batch[f];
        assert(all[rows.len() + q] == sel[q]);
    }
}

/// Decides which entries of a batch are new content, given for each whether
/// its fingerprint is stored already: an entry is new when its fingerprint
/// is neither stored nor held by an earlier new entry of the batch.
pub fn plan_insert(batch: &Vec<Entry>, present: &Vec<bool>) -> (r: Vec<bool>)
    requires
        present@.len() == batch@.len(),
    ensures
        r@ == accepted(entries_view(batch@), present@, batch@.len() as int),
{
    let ghost bv = entries_view(batch@);
    let mut r: Vec<bool> = Vec::new();
    let mut i: usize = 0;
    while i < batch.len()
        invariant
            0 <= i <= batch@.len(),
            present@.len() == batch@.len(),
            bv == entries_view(batch@),
            r@ == accepted(bv, present@, i as int),
        decreases batch.len() - i,
    {
        proof {
            lemma_accepted_len(bv, present@, i as int);
        }
        let fp = batch[i].fingerprint;
        let mut taken = false;
        let mut j: usize = 0;
        while j < i
            invariant
                0 <= j <= i < batch@.len(),
                bv == entries_view(batch@),
                r@.len() == i,
                fp == bv[i as int].fingerprint,
                taken == (exists|q: int| 0 <= q < j && r@[q] && bv[q].fingerprint == fp),
            decreases i - j,
        {
            if r[j] && batch[j].fingerprint == fp {
                taken = true;
            }
            j = j + 1;
        }
        r.push(!present[i] && !taken);
        i = i + 1;
    }
    r
}

/// A durable-store model: the table of committed entries.
pub struct MetadataStore {
    rows: Vec<Entry>,
}

impl View for MetadataStore {
    type V = Seq<EntryView>;

    closed spec fn view(&self) -> Seq<EntryView> {
        entries_view(self.rows@)
    }
}

impl MetadataStore {
    pub open spec fn wf(&self) -> bool {
        rows_wf(self@)
    }

    /// An empty store.
    pub fn new() -> (r: MetadataStore)
        ensures
            r@ == Seq::<EntryView>::empty(),
            r.wf(),
    {
        let r = MetadataStore { rows: Vec::new() };
        assert(r@ =~= Seq::<EntryView>::empty());
        r
    }

    /// Whether some entry has fingerprint `fp`.
    fn has_fingerprint_exec(&self, fp: u128) -> (r: bool)
        ensures
            r == has_fingerprint(self@, fp),
    {
        let mut k: usize = 0;
        while k < self.rows.len()
            invariant
                0 <= k <= self@.len(),
                self@ == entries_view(self.rows@),
                forall|q: int| 0 <= q < k ==> self@[q].fingerprint != fp,
            decreases self.rows.len() - k,
        {
            if self.rows[k].fingerprint == fp {
                assert(self@[k as int].fingerprint == fp);
                return true;
            }
            k = k + 1;
        }
        false
    }

    /// Whether committing `fresh` would repeat an identifier.
    fn ids_clash(&self, fresh: &Vec<Entry>) -> (r: bool)
        ensures
            r == id_clash(self@, entries_view(fresh@)),
    {
        let ghost fv = entries_view(fresh@);
        let mut i: usize = 0;
        while i < fresh.len()
            invariant
                0 <= i <= fresh@.len(),
                fv == entries_view(fresh@),
                self@ == entries_view(self.rows@),
                forall|a: int, k: int| 0 <= a < i && 0 <= k < self@.len() ==> fv[a].id != self@[k].id,
                forall|a: int, b: int| 0 <= a < i && a < b < fv.len() ==> fv[a].id != fv[b].id,
            decreases fresh.len() - i,
        {
            let mut k: usize = 0;
            while k < self.rows.len()
                invariant
                    0 <= i < fresh@.len(),
                    0 <= k <= self@.len(),
                    fv == entries_view(fresh@),
                    self@ == entries_view(self.rows@),
                    forall|q: int| 0 <= q < k ==> fv[i as int].id != self@[q].id,
                decreases self.rows.len() - k,
            {
                if fresh[i].id == self.rows[k].id {
                    assert(fv[i as int].id == self@[k as int].id);
                    return true;
                }
                k = k + 1;
            }
            let mut b: usize = i + 1;
            while b < fresh.len()
                invariant
                    0 <= i < b <= fresh@.len(),
                    fv == entries_view(fresh@),
                    forall|q: int| i < q < b ==> fv[i as int].id != fv[q].id,
                decreases fresh.len() - b,
            {
                if fresh[i].id == fresh[b].id {
                    assert(fv[i as int].id == fv[b as int].id);
                    return true;
                }
                b = b + 1;
            }
            i = i + 1;
        }
        false
    }

    /// Commits the entries of `batch` whose content is new, all or none.
    ///
    /// An entry is new when no stored entry and no earlier new entry of the
    /// batch has its fingerprint; the others are skipped. The report gives,
    /// for each entry of the batch in order, its path, with its fingerprint
    /// and identifier when it was committed. If the new entries would repeat
    /// an identifier, nothing is committed.
    pub fn insert_if_new(&mut self, batch: &Vec<Entry>) -> (r: Result<
        Vec<(Vec<u8>, Option<(u128, String)>)>,
        StoreError,
    >)
        requires
            old(self).wf(),
        ensures
            final(self).wf(),
            ({
                let bv = entries_view(batch@);
                let fresh = new_rows(old(self)@, bv);
                match r {
                    Ok(out) => !id_clash(old(self)@, fresh) && final(self)@ == old(self)@ + fresh
                        && report_view(out@) == insert_report(
                        bv,
                        accepted(bv, presence(old(self)@, bv), bv.len() as int),
                    ),
                    Err(e) => e == StoreError::DuplicateId && id_clash(old(self)@, fresh)
                        && final(self)@ == old(self)@,
                }
            }),
    {
        let ghost bv = entries_view(batch@);
        let ghost old_rows = self@;
        let mut present: Vec<bool> = Vec::new();
        let mut i: usize = 0;
        while i < batch.len()
            invariant
                0 <= i <= batch@.len(),
                bv == entries_view(batch@),
                self@ == old_rows,
                present@ =~= presence(old_rows, bv).subrange(0, i as int),
            decreases batch.len() - i,
        {
            let seen = self.has_fingerprint_exec(batch[i].fingerprint);
            present.push(seen);
            i = i + 1;
        }
        assert(present@ =~= presence(old_rows, bv));
        let acc = plan_insert(batch, &present);
        proof {
            lemma_accepted_len(bv, present@, bv.len() as int);
        }
        let mut fresh: Vec<Entry> = Vec::new();
        let mut out: Vec<(Vec<u8>, Option<(u128, String)>)> = Vec::new();
        let ghost mut src: Seq<int> = Seq::empty();
        let mut i: usize = 0;
        while i < batch.len()
            invariant
                0 <= i <= batch@.len(),
                bv == entries_view(batch@),
                self@ == old_rows,
                rows_wf(old_rows),
                present@ == presence(old_rows, bv),
                acc@ == accepted(bv, present@, bv.len() as int),
                acc@.len() == bv.len(),
                entries_view(fresh@) == selected(bv, acc@, i as int),
                report_view(out@) =~= insert_report(bv, acc@).subrange(0, i as int),
                forall|a: int|
                    0 <= a < fresh@.len() ==> !has_fingerprint(old_rows, #[trigger] fresh@[a].fingerprint),
                forall|a: int, b: int|
                    0 <= a < fresh@.len() && 0 <= b < fresh@.len() && a != b ==> fresh@[a].fingerprint
                        != fresh@[b].fingerprint,
                src.len() == fresh@.len(),
                forall|a: int|
                    0 <= a < fresh@.len() ==> 0 <= #[trigger] src[a] < i && acc@[src[a]]
                        && bv[src[a]].fingerprint == fresh@[a].fingerprint,
            decreases batch.len() - i,
        {
            let path = copy_bytes(&batch[i].path);
            if acc[i] {
                proof {
                    lemma_accepted_prefix(bv, present@, i + 1, bv.len() as int, i as int);
                    lemma_accepted_len(bv, present@, i as int);
                    assert forall|a: int| 0 <= a < fresh@.len() implies fresh@[a].fingerprint
                        != bv[i as int].fingerprint by {
                        let j = src[a];
                        lemma_accepted_prefix(bv, present@, i as int, bv.len() as int, j);
                    }
                }
                let e = Entry {
                    id: batch[i].id.clone(),
                    fingerprint: batch[i].fingerprint,
                    path: copy_bytes(&batch[i].path),
                };
                let ghost before = fresh@;
                fresh.push(e);
                proof {
                    assert(entries_view(fresh@) =~= entries_view(before).push(bv[i as int]));
                    src = src.push(i as int);
                    assert forall|a: int| 0 <= a < fresh@.len() implies 0 <= #[trigger] src[a] < i + 1
                        && acc@[src[a]] && bv[src[a]].fingerprint == fresh@[a].fingerprint by {
                        if a < before.len() {
                            assert(fresh@[a] == before[a]);
                        }
                    }
                }
                let ghost out_before = out@;
                out.push((path, Some((batch[i].fingerprint, batch[i].id.clone()))));
                assert(report_view(out@) =~= report_view(out_before).push(insert_report(bv, acc@)[i as int]));
            } else {
                let ghost out_before = out@;
                out.push((path, None));
                assert(report_view(out@) =~= report_view(out_before).push(insert_report(bv, acc@)[i as int]));
            }
            i = i + 1;
        }
        assert(report_view(out@) =~= insert_report(bv, acc@));
        if self.ids_clash(&fresh) {
            return Err(StoreError::DuplicateId);
        }
        let ghost fv = entries_view(fresh@);
        self.rows.append(&mut fresh);
        proof {
            assert(self@ =~= old_rows + fv);
            let all = self@;
            assert forall|a: int, b: int|
                0 <= a < all.len() && 0 <= b < all.len() && a != b implies all[a].id != all[b].id
                && all[a].fingerprint != all[b].fingerprint by {
                let n = old_rows.len() as int;
                if a >= n && b >= n {
                    if a < b {
                        assert(!(fv[a - n].id == fv[b - n].id));
                    } else {
                        assert(!(fv[b - n].id == fv[a - n].id));
                    }
                } else if a >= n {
                    assert(!(fv[a - n].id == old_rows[b].id));
                    assert(!has_fingerprint(old_rows, fv[a - n].fingerprint));
                } else if b >= n {
                    assert(!(fv[b - n].id == old_rows[a].id));
                    assert(!has_fingerprint(old_rows, fv[b - n].fingerprint));
                }
            }
        }
        Ok(out)
    }

    /// The path stored for identifier `id`.
    pub fn lookup_path(&self, id: &str) -> (r: Result<Vec<u8>, StoreError>)
        ensures
            match lookup(self@, id@) {
                Some(p) => r is Ok && r->Ok_0@ == p,
                None => r == Err::<Vec<u8>, StoreError>(StoreError::NotFound),
            },
    {
        let key = id.to_owned();
        let mut k: usize = 0;
        while k < self.rows.len()
            invariant
                0 <= k <= self@.len(),
                self@ == entries_view(self.rows@),
                key@ == id@,
                lookup(self@, id@) == find_path(self@, id@, k as int),
            decreases self.rows.len() - k,
        {
            if self.rows[k].id == key {
                return Ok(copy_bytes(&self.rows[k].path));
            }
            k = k + 1;
        }
        Err(StoreError::NotFound)
    }

    /// Deletes the entries stored at `path`, returning their identifiers.
    fn remove_path(&mut self, path: &Vec<u8>) -> (r: Vec<String>)
        requires
            old(self).wf(),
        ensures
            final(self).wf(),
            final(self)@ == kept(old(self)@, path@, old(self)@.len() as int),
            ids_view(r@) == dropped(old(self)@, path@, old(self)@.len() as int),
    {
        let ghost old_rows = self@;
        let mut left: Vec<Entry> = Vec::new();
        let mut ids: Vec<String> = Vec::new();
        let mut k: usize = 0;
        while k < self.rows.len()
            invariant
                0 <= k <= old_rows.len(),
                self@ == old_rows,
                self@ == entries_view(self.rows@),
                entries_view(left@) == kept(old_rows, path@, k as int),
                ids_view(ids@) == dropped(old_rows, path@, k as int),
            decreases self.rows.len() - k,
        {
            let row = &self.rows[k];
            if bytes_equal(&row.path, path) {
                let ghost before = ids@;
                ids.push(row.id.clone());
                assert(ids_view(ids@) =~= ids_view(before).push(old_rows[k as int].id));
            } else {
                let ghost before = left@;
                left.push(Entry {
                    id: row.id.clone(),
                    fingerprint: row.fingerprint,
                    path: copy_bytes(&row.path),
                });
                assert(entries_view(left@) =~= entries_view(before).push(old_rows[k as int]));
            }
            k = k + 1;
        }
        proof {
            lemma_kept(old_rows, path@, old_rows.len() as int);
        }
        self.rows = left;
        ids
    }

    /// Deletes, path after path, the entries stored at each of `paths`, and
    /// returns the identifiers of the entries deleted, in that order. Paths
    /// that no entry has are skipped.
    pub fn delete_by_paths(&mut self, paths: &Vec<Vec<u8>>) -> (r: Vec<String>)
        requires
            old(self).wf(),
        ensures
            final(self).wf(),
            (final(self)@, ids_view(r@)) == delete_paths(
                old(self)@,
                paths_view(paths@),
                paths@.len() as int,
            ),
    {
        let ghost pv = paths_view(paths@);
        let mut ids: Vec<String> = Vec::new();
        let mut i: usize = 0;
        while i < paths.len()
            invariant
                0 <= i <= paths@.len(),
                pv == paths_view(paths@),
                self.wf(),
                (self@, ids_view(ids@)) == delete_paths(old(self)@, pv, i as int),
            decreases paths.len() - i,
        {
            let mut gone = self.remove_path(&paths[i]);
            proof {
                assert(ids_view(ids@ + gone@) =~= ids_view(ids@) + ids_view(gone@));
            }
            ids.append(&mut gone);
            i = i + 1;
        }
        ids
    }

    /// The number of entries.
    pub fn count(&self) -> (r: usize)
        ensures
            r == self@.len(),
    {
        self.rows.len()
    }
}

} // verus!
