use vstd::prelude::*;
use vstd::utf8::encode_utf8;

use crate::bytes::{copy_bytes, join, join_path, paths_view};
use crate::store::{
    accepted, delete_paths, entries_view, ids_view, insert_report, lemma_accepted_len, lemma_dedup,
    id_clash, new_rows, presence, report_view, Entry, EntryView, MetadataStore, StoreError,
};
use crate::weaviate::{
    delete_request, image_object, is_id_leaf, properties_view, MultiOperator, WeaviateBatchDelete,
    WeaviateBatchInput, WeaviateInput,
};

verus! {

/// The MD5 digest of some bytes, as a big-endian 128-bit number.
pub uninterp spec fn md5_of(data: Seq<u8>) -> u128;

/// The padded standard base64 text of some bytes.
pub uninterp spec fn base64_of(data: Seq<u8>) -> Seq<char>;

/// Relies on `md5::compute`: the MD5 digest of the bytes (its 16 bytes read
/// here as one big-endian number).
#[verifier::external_body]
fn md5_digest(data: &Vec<u8>) -> (r: u128)
    ensures
        r == md5_of(data@),
{
    u128::from_be_bytes(md5::compute(data.as_slice()).0)
}

/// Relies on base64's standard engine (`STANDARD.encode`): the padded
/// standard-alphabet base64 text of the bytes.
#[verifier::external_body]
fn base64_encode(data: &Vec<u8>) -> (r: String)
    ensures
        r@ == base64_of(data@),
{
    base64::Engine::encode(&base64::engine::general_purpose::STANDARD, data.as_slice())
}

/// Relies on uuid's `Uuid::new_v4` and its hyphenated text form: a fresh
/// random identifier.
#[verifier::external_body]
fn new_id() -> (r: String) {
    uuid::Uuid::new_v4().to_string()
}

/// The fingerprint and the base64 text of an image preview: the
/// fingerprint is the MD5 digest of the preview bytes.
pub fn image_metadata(preview: &Vec<u8>) -> (r: (u128, String))
    ensures
        r.0 == md5_of(preview@),
        r.1@ == base64_of(preview@),
{
    (md5_digest(preview), base64_encode(preview))
}

/// The index of the last `.` among the first `n` characters of `s`, or -1.
pub open spec fn last_dot(s: Seq<char>, n: int) -> int
    decreases n,
{
    if n <= 0 {
        -1
    } else if s[n - 1] == '.' {
        n - 1
    } else {
        last_dot(s, n - 1)
    }
}

/// The extension of a file name: what follows its last `.`, if it has one.
pub open spec fn extension(name: Seq<char>) -> Option<Seq<char>> {
    let d = last_dot(name, name.len() as int);
    if d < 0 {
        None
    } else {
        Some(name.subrange(d + 1, name.len() as int))
    }
}

/// Where an input named `name` is stored under identifier `id`: the file
/// `<id>.<extension>` in directory `dir`; nowhere for a name without an
/// extension.
pub open spec fn target_of(dir: Seq<u8>, id: Seq<char>, name: Seq<char>) -> Option<Seq<u8>> {
    match extension(name) {
        None => None,
        Some(ext) => Some(join(dir, encode_utf8(id + "."@ + ext))),
    }
}

/// The storage path for an input named `name` under identifier `id`, in
/// directory `dir`; `None` when the name has no extension.
pub fn target_path(dir: &Vec<u8>, id: &String, name: &String) -> (r: Option<Vec<u8>>)
    ensures
        match target_of(dir@, id@, name@) {
            None => r is None,
            Some(p) => r is Some && r->Some_0@ == p,
        },
{
    let text = name.as_str();
    let n = text.unicode_len();
    let mut k: usize = n;
    while k > 0
        invariant
            0 <= k <= n,
            n == name@.len(),
            text@ == name@,
            last_dot(name@, n as int) == last_dot(name@, k as int),
        decreases k,
    {
        if text.get_char(k - 1) == '.' {
            let ext = text.substring_char(k, n);
            let file = id.clone().concat(".").concat(ext);
            let bytes = file.as_str().as_bytes_vec();
            return Some(join_path(dir, &bytes));
        }
        k = k - 1;
    }
    None
}

/// One input of an ingestion batch: its name as received, its identifier,
/// where its bytes are (none for an input that is not kept), and whether
/// that file is a copy owned by the batch.
pub struct Item {
    pub name: String,
    pub id: String,
    pub path: Option<Vec<u8>>,
    pub owned: bool,
}

pub struct ItemView {
    pub name: Seq<char>,
    pub id: Seq<char>,
    pub path: Option<Seq<u8>>,
    pub owned: bool,
}

impl View for Item {
    type V = ItemView;

    open spec fn view(&self) -> ItemView {
        ItemView {
            name: self.name@,
            id: self.id@,
            path: match self.path {
                Some(p) => Some(p@),
                None => None,
            },
            owned: self.owned,
        }
    }
}

pub open spec fn items_view(s: Seq<Item>) -> Seq<ItemView> {
    s.map_values(|i: Item| i@)
}

/// What preview generation gave for each input: its fingerprint and
/// base64 preview, or nothing for an input that is dropped.
pub open spec fn previews_view(p: Seq<Option<(u128, String)>>) -> Seq<Option<(u128, Seq<char>)>> {
    p.map_values(
        |o: Option<(u128, String)>|
            match o {
                Some(x) => Some((x.0, x.1@)),
                None => None,
            },
    )
}

/// The owned files among the first `n` items, in order.
pub open spec fn owned_paths(items: Seq<ItemView>, n: int) -> Seq<Seq<u8>>
    decreases n,
{
    if n <= 0 {
        Seq::empty()
    } else if items[n - 1].owned && items[n - 1].path is Some {
        owned_paths(items, n - 1).push(items[n - 1].path->Some_0)
    } else {
        owned_paths(items, n - 1)
    }
}

/// Whether item `s` goes on to the store: it has a file and a preview.
pub open spec fn is_candidate(items: Seq<ItemView>, previews: Seq<Option<(u128, Seq<char>)>>, s: int) -> bool {
    items[s].path is Some && previews[s] is Some
}

/// The store entries of the candidates among the first `n` items, in order.
pub open spec fn candidates(
    items: Seq<ItemView>,
    previews: Seq<Option<(u128, Seq<char>)>>,
    n: int,
) -> Seq<EntryView>
    decreases n,
{
    if n <= 0 {
        Seq::empty()
    } else if is_candidate(items, previews, n - 1) {
        candidates(items, previews, n - 1).push(
            EntryView {
                id: items[n - 1].id,
                fingerprint: previews[n - 1]->Some_0.0,
                path: items[n - 1].path->Some_0,
            },
        )
    } else {
        candidates(items, previews, n - 1)
    }
}

/// Whether item `s` was committed, given for each candidate whether the
/// store committed it.
pub open spec fn is_committed(
    items: Seq<ItemView>,
    previews: Seq<Option<(u128, Seq<char>)>>,
    committed: Seq<bool>,
    s: int,
) -> bool {
    is_candidate(items, previews, s) && committed[candidates(items, previews, s).len() as int]
}

/// The files among the first `n` items that the batch owns and that were
/// not committed: none of them may stay on disk.
pub open spec fn leftovers(
    items: Seq<ItemView>,
    previews: Seq<Option<(u128, Seq<char>)>>,
    committed: Seq<bool>,
    n: int,
) -> Seq<Seq<u8>>
    decreases n,
{
    if n <= 0 {
        Seq::empty()
    } else if items[n - 1].owned && items[n - 1].path is Some && !is_committed(
        items,
        previews,
        committed,
        n - 1,
    ) {
        leftovers(items, previews, committed, n - 1).push(items[n - 1].path->Some_0)
    } else {
        leftovers(items, previews, committed, n - 1)
    }
}

/// The (identifier, base64 preview) of each committed item among the first
/// `n`, in order: what the index receives.
pub open spec fn uploads(
    items: Seq<ItemView>,
    previews: Seq<Option<(u128, Seq<char>)>>,
    committed: Seq<bool>,
    n: int,
) -> Seq<(Seq<char>, Seq<char>)>
    decreases n,
{
    if n <= 0 {
        Seq::empty()
    } else if is_committed(items, previews, committed, n - 1) {
        uploads(items, previews, committed, n - 1).push((items[n - 1].id, previews[n - 1]->Some_0.1))
    } else {
        uploads(items, previews, committed, n - 1)
    }
}

/// For each input, its name and, if it was committed, its identifier.
pub open spec fn assigned_ids(
    items: Seq<ItemView>,
    previews: Seq<Option<(u128, Seq<char>)>>,
    committed: Seq<bool>,
) -> Seq<(Seq<char>, Option<Seq<char>>)> {
    Seq::new(
        items.len(),
        |s: int|
            (items[s].name, if is_committed(items, previews, committed, s) {
                Some(items[s].id)
            } else {
                None
            }),
    )
}

/// The upsert object that `(id, preview)` becomes.
pub open spec fn is_image_object(o: WeaviateInput, id: Seq<char>, preview: Seq<char>) -> bool {
    &&& o.class@ == "ClipImage"@
    &&& o.id is Some
    &&& o.id->Some_0@ == id
    &&& properties_view(o.properties@) == seq![("image"@, preview)]
}

/// What is left to do once the store has answered: report the identifiers,
/// delete the files that were not committed, and send the upsert to the
/// index.
pub struct Outcome {
    pub path_ids: Vec<(String, Option<String>)>,
    pub to_delete: Vec<Vec<u8>>,
    pub upsert: WeaviateBatchInput,
}

/// One ingestion batch: its inputs in order, each given an identifier and,
/// once persisted, a file.
pub struct Ingestion {
    upload_dir: Vec<u8>,
    items: Vec<Item>,
    pending: Option<Item>,
}

pub struct IngestionView {
    pub upload_dir: Seq<u8>,
    pub items: Seq<ItemView>,
    pub pending: Option<ItemView>,
}

impl View for Ingestion {
    type V = IngestionView;

    closed spec fn view(&self) -> IngestionView {
        IngestionView {
            upload_dir: self.upload_dir@,
            items: items_view(self.items@),
            pending: match self.pending {
                Some(i) => Some(i@),
                None => None,
            },
        }
    }
}

pub open spec fn path_ids_view(v: Seq<(String, Option<String>)>) -> Seq<(Seq<char>, Option<Seq<char>>)> {
    v.map_values(
        |t: (String, Option<String>)|
            (t.0@, match t.1 {
                Some(id) => Some(id@),
                None => None,
            }),
    )
}

impl Ingestion {
    /// A new, empty batch whose copies go to directory `upload_dir`.
    pub fn new(upload_dir: Vec<u8>) -> (r: Ingestion)
        ensures
            r@.upload_dir == upload_dir@,
            r@.items.len() == 0,
            r@.pending is None,
    {
        let r = Ingestion { upload_dir, items: Vec::new(), pending: None };
        assert(r@.items =~= Seq::<ItemView>::empty());
        r
    }

    /// The number of inputs taken in.
    pub fn len(&self) -> (r: usize)
        ensures
            r == self@.items.len(),
    {
        self.items.len()
    }

    /// Where each input's bytes are, in order: the files whose previews
    /// are to be generated.
    pub fn item_paths(&self) -> (r: Vec<Option<Vec<u8>>>)
        ensures
            r@.len() == self@.items.len(),
            forall|k: int|
                0 <= k < r@.len() ==> (match #[trigger] r@[k] {
                    Some(p) => self@.items[k].path == Some(p@),
                    None => self@.items[k].path is None,
                }),
    {
        let mut out: Vec<Option<Vec<u8>>> = Vec::new();
        let mut k: usize = 0;
        while k < self.items.len()
            invariant
                0 <= k <= self.items@.len(),
                out@.len() == k,
                forall|q: int|
                    0 <= q < k ==> (match #[trigger] out@[q] {
                        Some(p) => self@.items[q].path == Some(p@),
                        None => self@.items[q].path is None,
                    }),
            decreases self.items.len() - k,
        {
            match &self.items[k].path {
                Some(p) => out.push(Some(copy_bytes(p))),
                None => out.push(None),
            }
            k = k + 1;
        }
        out
    }

    /// Takes in the next uploaded input, named `name`, under a fresh
    /// identifier. Returns the path its bytes must be written to, and holds
    /// it as pending until `persisted` is called; an input whose name has no
    /// extension is not kept, and gets no path.
    pub fn stage(&mut self, name: String) -> (r: Option<Vec<u8>>)
        requires
            old(self)@.pending is None,
        ensures
            final(self)@.upload_dir == old(self)@.upload_dir,
            r is None <==> extension(name@) is None,
            r is None ==> {
                &&& final(self)@.pending is None
                &&& final(self)@.items.len() == old(self)@.items.len() + 1
                &&& final(self)@.items.drop_last() == old(self)@.items
                &&& final(self)@.items.last().name == name@
                &&& final(self)@.items.last().path is None
            },
            r is Some ==> {
                let item = final(self)@.pending->Some_0;
                &&& final(self)@.items == old(self)@.items
                &&& final(self)@.pending is Some
                &&& item.name == name@
                &&& item.owned
                &&& item.path == Some(r->Some_0@)
                &&& target_of(old(self)@.upload_dir, item.id, name@) == Some(r->Some_0@)
            },
    {
        let id = new_id();
        match target_path(&self.upload_dir, &id, &name) {
            None => {
                let ghost before = self@.items;
                self.items.push(Item { name, id, path: None, owned: true });
                assert(self@.items.drop_last() =~= before);
                None
            },
            Some(p) => {
                self.pending = Some(Item { name, id, path: Some(copy_bytes(&p)), owned: true });
                Some(p)
            },
        }
    }

    /// Records that the pending input's bytes were written to its path.
    pub fn persisted(&mut self)
        requires
            old(self)@.pending is Some,
        ensures
            final(self)@.upload_dir == old(self)@.upload_dir,
            final(self)@.items == old(self)@.items.push(old(self)@.pending->Some_0),
            final(self)@.pending is None,
    {
        let pending = self.pending.take();
        match pending {
            Some(item) => {
                let ghost before = self@.items;
                let ghost iv = item@;
                self.items.push(item);
                assert(self@.items =~= before.push(iv));
            },
            None => {},
        }
    }

    /// Takes in an existing file at `path`, reported under `name`, with a
    /// fresh identifier. The file is not the batch's own: it is never
    /// deleted.
    pub fn add_existing(&mut self, name: String, path: Vec<u8>)
        requires
            old(self)@.pending is None,
        ensures
            final(self)@.upload_dir == old(self)@.upload_dir,
            final(self)@.pending is None,
            final(self)@.items.len() == old(self)@.items.len() + 1,
            final(self)@.items.drop_last() == old(self)@.items,
            final(self)@.items.last().name == name@,
            final(self)@.items.last().path == Some(path@),
            !final(self)@.items.last().owned,
    {
        let ghost before = self@.items;
        let ghost pv = path@;
        self.items.push(Item { name, id: new_id(), path: Some(path), owned: false });
        assert(self@.items.drop_last() =~= before);
    }

    /// Gives the batch up after a failed write. Returns every file the batch
    /// wrote so far, all of which must be deleted, and empties the batch, so
    /// that nothing of it reaches the store.
    pub fn abort(&mut self) -> (r: Vec<Vec<u8>>)
        ensures
            paths_view(r@) == owned_paths(old(self)@.items, old(self)@.items.len() as int),
            final(self)@.upload_dir == old(self)@.upload_dir,
            final(self)@.items.len() == 0,
            final(self)@.pending is None,
    {
        let ghost items = self@.items;
        let mut out: Vec<Vec<u8>> = Vec::new();
        let mut k: usize = 0;
        while k < self.items.len()
            invariant
                0 <= k <= items.len(),
                items == items_view(self.items@),
                paths_view(out@) == owned_paths(items, k as int),
            decreases self.items.len() - k,
        {
            let item = &self.items[k];
            if item.owned {
                match &item.path {
                    Some(p) => {
                        let ghost before = out@;
                        out.push(copy_bytes(p));
                        assert(paths_view(out@) =~= paths_view(before).push(p@));
                    },
                    None => {},
                }
            }
            k = k + 1;
        }
        self.items = Vec::new();
        self.pending = None;
        assert(self@.items =~= Seq::<ItemView>::empty());
        out
    }

    /// The store entries of the batch: each input that has a file and a
    /// preview, with the preview's fingerprint, in order.
    pub fn entries(&self, previews: &Vec<Option<(u128, String)>>) -> (r: Vec<Entry>)
        requires
            previews@.len() == self@.items.len(),
        ensures
            entries_view(r@) == candidates(
                self@.items,
                previews_view(previews@),
                self@.items.len() as int,
            ),
    {
        let ghost items = self@.items;
        let ghost pv = previews_view(previews@);
        let mut out: Vec<Entry> = Vec::new();
        let mut k: usize = 0;
        while k < self.items.len()
            invariant
                0 <= k <= items.len(),
                items == items_view(self.items@),
                previews@.len() == items.len(),
                pv == previews_view(previews@),
                entries_view(out@) == candidates(items, pv, k as int),
            decreases self.items.len() - k,
        {
            let item = &self.items[k];
            match &item.path {
                Some(p) => match &previews[k] {
                    Some(pr) => {
                        let ghost before = out@;
                        let e = Entry { id: item.id.clone(), fingerprint: pr.0, path: copy_bytes(p) };
                        out.push(e);
                        assert(entries_view(out@) =~= entries_view(before).push(e@));
                    },
                    None => {},
                },
                None => {},
            }
            k = k + 1;
        }
        out
    }

    /// Settles the batch once the store has answered; `committed[k]` tells
    /// whether the `k`-th of `entries(previews)` was committed. Gives each
    /// input's identifier if it was committed, the owned files that were not
    /// committed (to delete), and the upsert of the committed images.
    pub fn finish(&self, previews: &Vec<Option<(u128, String)>>, committed: &Vec<bool>) -> (r: Outcome)
        requires
            previews@.len() == self@.items.len(),
            committed@.len() == candidates(
                self@.items,
                previews_view(previews@),
                self@.items.len() as int,
            ).len(),
        ensures
            ({
                let items = self@.items;
                let pv = previews_view(previews@);
                let ups = uploads(items, pv, committed@, items.len() as int);
                &&& path_ids_view(r.path_ids@) == assigned_ids(items, pv, committed@)
                &&& paths_view(r.to_delete@) == leftovers(items, pv, committed@, items.len() as int)
                &&& r.upsert.objects@.len() == ups.len()
                &&& forall|k: int|
                    0 <= k < ups.len() ==> is_image_object(
                        #[trigger] r.upsert.objects@[k],
                        ups[k].0,
                        ups[k].1,
                    )
            }),
    {
        let ghost items = self@.items;
        let ghost pv = previews_view(previews@);
        let mut path_ids: Vec<(String, Option<String>)> = Vec::new();
        let mut to_delete: Vec<Vec<u8>> = Vec::new();
        let mut objects: Vec<WeaviateInput> = Vec::new();
        let total = committed.len();
        let mut e: usize = 0;
        let mut k: usize = 0;
        while k < self.items.len()
            invariant
                0 <= k <= items.len(),
                items == items_view(self.items@),
                previews@.len() == items.len(),
                pv == previews_view(previews@),
                committed@.len() == candidates(items, pv, items.len() as int).len(),
                total == committed@.len(),
                e == candidates(items, pv, k as int).len(),
                path_ids_view(path_ids@) =~= assigned_ids(items, pv, committed@).subrange(0, k as int),
                paths_view(to_delete@) == leftovers(items, pv, committed@, k as int),
                objects@.len() == uploads(items, pv, committed@, k as int).len(),
                forall|q: int|
                    0 <= q < objects@.len() ==> is_image_object(
                        #[trigger] objects@[q],
                        uploads(items, pv, committed@, k as int)[q].0,
                        uploads(items, pv, committed@, k as int)[q].1,
                    ),
            decreases self.items.len() - k,
        {
            proof {
                lemma_candidates_prefix(items, pv, k as int, items.len() as int);
            }
            let item = &self.items[k];
            let mut done = false;
            let mut candidate = false;
            match &item.path {
                Some(_) => match &previews[k] {
                    Some(pr) => {
                        candidate = true;
                        if committed[e] {
                            done = true;
                            let ghost ups = uploads(items, pv, committed@, k as int);
                            let ghost before = objects@;
                            objects.push(image_object(item.id.clone(), pr.1.clone()));
                            assert forall|q: int|
                                0 <= q < objects@.len() implies is_image_object(
                                #[trigger] objects@[q],
                                uploads(items, pv, committed@, k + 1)[q].0,
                                uploads(items, pv, committed@, k + 1)[q].1,
                            ) by {
                                if q < before.len() {
                                    assert(objects@[q] == before[q]);
                                }
                            }
                        }
                    },
                    None => {},
                },
                None => {},
            }
            assert(done == is_committed(items, pv, committed@, k as int));
            assert(candidate == is_candidate(items, pv, k as int));
            if !done && item.owned {
                match &item.path {
                    Some(p) => {
                        let ghost before = to_delete@;
                        to_delete.push(copy_bytes(p));
                        assert(paths_view(to_delete@) =~= paths_view(before).push(p@));
                    },
                    None => {},
                }
            }
            let ghost before_ids = path_ids@;
            if done {
                path_ids.push((item.name.clone(), Some(item.id.clone())));
            } else {
                path_ids.push((item.name.clone(), None));
            }
            assert(path_ids_view(path_ids@) =~= path_ids_view(before_ids).push(
                assigned_ids(items, pv, committed@)[k as int],
            ));
            if candidate {
                assert(e < total);
                e = e + 1;
            }
            k = k + 1;
        }
        Outcome { path_ids, to_delete, upsert: WeaviateBatchInput::new(objects) }
    }
}

proof fn lemma_candidates_prefix(
    items: Seq<ItemView>,
    previews: Seq<Option<(u128, Seq<char>)>>,
    m: int,
    n: int,
)
    requires
        0 <= m <= n,
    ensures
        candidates(items, previews, m).len() <= candidates(items, previews, n).len(),
        m < n && is_candidate(items, previews, m) ==> candidates(items, previews, m).len()
            < candidates(items, previews, n).len(),
    decreases n,
{
    if m < n {
        lemma_candidates_prefix(items, previews, m, n - 1);
    }
}

impl Ingestion {
    /// Commits the batch to `store`: the candidates go through
    /// `insert_if_new`, and the batch is settled with what it committed.
    /// On a store error nothing is committed, and every owned file of the
    /// batch is still to delete (see `abort`).
    pub fn commit(&self, previews: &Vec<Option<(u128, String)>>, store: &mut MetadataStore) -> (r:
        Result<Outcome, StoreError>)
        requires
            previews@.len() == self@.items.len(),
            old(store).wf(),
        ensures
            final(store).wf(),
            ({
                let items = self@.items;
                let pv = previews_view(previews@);
                let c = candidates(items, pv, items.len() as int);
                let committed = accepted(c, presence(old(store)@, c), c.len() as int);
                let ups = uploads(items, pv, committed, items.len() as int);
                match r {
                    Ok(o) => {
                        &&& final(store)@ == old(store)@ + new_rows(old(store)@, c)
                        &&& path_ids_view(o.path_ids@) == assigned_ids(items, pv, committed)
                        &&& paths_view(o.to_delete@) == leftovers(items, pv, committed, items.len() as int)
                        &&& o.upsert.objects@.len() == ups.len()
                        &&& forall|k: int|
                            0 <= k < ups.len() ==> is_image_object(
                                #[trigger] o.upsert.objects@[k],
                                ups[k].0,
                                ups[k].1,
                            )
                    },
                    Err(e) => e == StoreError::DuplicateId && final(store)@ == old(store)@,
                }
            }),
            ({
                let c = candidates(self@.items, previews_view(previews@), self@.items.len() as int);
                r is Err <==> id_clash(old(store)@, new_rows(old(store)@, c))
            }),
    {
        let batch = self.entries(previews);
        let report = match store.insert_if_new(&batch) {
            Ok(report) => report,
            Err(e) => return Err(e),
        };
        let ghost c = entries_view(batch@);
        let ghost acc = accepted(c, presence(old(store)@, c), c.len() as int);
        proof {
            lemma_accepted_len(c, presence(old(store)@, c), c.len() as int);
            assert(report_view(report@).len() == c.len());
        }
        let mut committed: Vec<bool> = Vec::new();
        let mut k: usize = 0;
        while k < report.len()
            invariant
                0 <= k <= report@.len(),
                acc.len() == c.len(),
                report@.len() == c.len(),
                report_view(report@) == insert_report(c, acc),
                committed@ =~= acc.subrange(0, k as int),
            decreases report.len() - k,
        {
            assert(report_view(report@)[k as int] == insert_report(c, acc)[k as int]);
            committed.push(report[k].1.is_some());
            k = k + 1;
        }
        assert(committed@ =~= acc);
        Ok(self.finish(previews, &committed))
    }
}

/// Deletes from `store` the entries stored at each of `paths`, and returns
/// the index request that deletes their objects: a delete by the
/// identifiers of the entries deleted, in order.
pub fn remove_paths(store: &mut MetadataStore, paths: &Vec<Vec<u8>>) -> (r: WeaviateBatchDelete)
    requires
        old(store).wf(),
    ensures
        final(store).wf(),
        ({
            let (left, ids) = delete_paths(old(store)@, paths_view(paths@), paths@.len() as int);
            &&& final(store)@ == left
            &&& r.match_.class@ == "ClipImage"@
            &&& r.output is None
            &&& r.dry_run is None
            &&& r.match_.where_ is Multiple
            &&& r.match_.where_->Multiple_operator == MultiOperator::Or
            &&& r.match_.where_->Multiple_operands@.len() == ids.len()
            &&& forall|k: int|
                0 <= k < ids.len() ==> is_id_leaf(
                    #[trigger] r.match_.where_->Multiple_operands@[k],
                    ids[k],
                )
        }),
{
    let ids = store.delete_by_paths(paths);
    let r = delete_request(&ids);
    proof {
        let dv = delete_paths(old(store)@, paths_view(paths@), paths@.len() as int);
        assert(ids_view(ids@) == dv.1);
        assert forall|k: int| 0 <= k < dv.1.len() implies is_id_leaf(
            #[trigger] r.match_.where_->Multiple_operands@[k],
            dv.1[k],
        ) by {
            assert(dv.1[k] == ids@[k]@);
        }
    }
    r
}

proof fn lemma_candidate_at(
    items: Seq<ItemView>,
    previews: Seq<Option<(u128, Seq<char>)>>,
    s: int,
    n: int,
)
    requires
        0 <= s < n,
        is_candidate(items, previews, s),
    ensures
        candidates(items, previews, s).len() < candidates(items, previews, n).len(),
        candidates(items, previews, n)[candidates(items, previews, s).len() as int] == (EntryView {
            id: items[s].id,
            fingerprint: previews[s]->Some_0.0,
            path: items[s].path->Some_0,
        }),
    decreases n,
{
    lemma_candidates_prefix(items, previews, s, n);
    if n > s + 1 {
        lemma_candidate_at(items, previews, s, n - 1);
    }
}

proof fn lemma_leftover_kept(
    items: Seq<ItemView>,
    previews: Seq<Option<(u128, Seq<char>)>>,
    committed: Seq<bool>,
    t: int,
    n: int,
)
    requires
        0 <= t < n,
        items[t].owned,
        items[t].path is Some,
        !is_committed(items, previews, committed, t),
    ensures
        leftovers(items, previews, committed, n).contains(items[t].path->Some_0),
    decreases n,
{
    if n == t + 1 {
        let l = leftovers(items, previews, committed, n);
        assert(l[l.len() - 1] == items[t].path->Some_0);
    } else {
        lemma_leftover_kept(items, previews, committed, t, n - 1);
        let prev = leftovers(items, previews, committed, n - 1);
        let k = choose|k: int| 0 <= k < prev.len() && prev[k] == items[t].path->Some_0;
        assert(leftovers(items, previews, committed, n)[k] == prev[k]);
    }
}

/// Dedup through a batch: when two inputs of one batch reach the store with
/// the same preview fingerprint, the later one is not committed, is
/// reported with no identifier, and its file, if the batch owns it, is
/// among the files to delete.
pub proof fn lemma_batch_dedup(
    rows: Seq<EntryView>,
    items: Seq<ItemView>,
    previews: Seq<Option<(u128, Seq<char>)>>,
    s: int,
    t: int,
)
    requires
        previews.len() == items.len(),
        0 <= s < t < items.len(),
        is_candidate(items, previews, s),
        is_candidate(items, previews, t),
        previews[s]->Some_0.0 == previews[t]->Some_0.0,
    ensures
        ({
            let c = candidates(items, previews, items.len() as int);
            let committed = accepted(c, presence(rows, c), c.len() as int);
            &&& !is_committed(items, previews, committed, t)
            &&& assigned_ids(items, previews, committed)[t].1 is None
            &&& items[t].owned ==> leftovers(items, previews, committed, items.len() as int).contains(
                items[t].path->Some_0,
            )
        }),
{
    let n = items.len() as int;
    let c = candidates(items, previews, n);
    let committed = accepted(c, presence(rows, c), c.len() as int);
    lemma_candidate_at(items, previews, s, n);
    lemma_candidate_at(items, previews, t, n);
    lemma_candidate_at(items, previews, s, t);
    let i = candidates(items, previews, s).len() as int;
    let j = candidates(items, previews, t).len() as int;
    lemma_dedup(rows, c, i, j);
    assert(!is_committed(items, previews, committed, t));
    if items[t].owned {
        lemma_leftover_kept(items, previews, committed, t, n);
    }
}

} // verus!
