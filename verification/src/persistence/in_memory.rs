//! In-memory download stores: never fail, never leave the process.

use vstd::prelude::*;

use crate::model::{Download, DownloadId, DownloadModel, SubDownload, SubDownloadId, SubDownloadModel};
use crate::store::{lemma_filter_pairwise, lemma_filter_push, lemma_filter_sub};
use crate::util::Never;

verus! {

/// The index type from parent download ids to sub-download ids.
pub type ParentIndex = multimap::MultiMap<u64, u64, std::collections::hash_map::RandomState>;

/// The predicate "this download's id differs from `id`".
pub open spec fn dl_lacks_id(id: int) -> spec_fn(DownloadModel) -> bool {
    |d: DownloadModel| d.id != id
}

/// The predicate "this download's URI equals `uri`".
pub open spec fn dl_has_uri(uri: Seq<char>) -> spec_fn(DownloadModel) -> bool {
    |d: DownloadModel| d.uri == uri
}

/// The predicate "this sub-download's id differs from `id`".
pub open spec fn sub_lacks_id(id: int) -> spec_fn(SubDownloadModel) -> bool {
    |d: SubDownloadModel| d.id != id
}

/// The predicate "this sub-download's id equals `id`".
pub open spec fn sub_has_id(id: int) -> spec_fn(SubDownloadModel) -> bool {
    |d: SubDownloadModel| d.id == id
}

/// The predicate "this sub-download's URI equals `uri`".
pub open spec fn sub_has_uri(uri: Seq<char>) -> spec_fn(SubDownloadModel) -> bool {
    |d: SubDownloadModel| d.uri == uri
}

/// Whether some download in `s` carries the given id.
pub open spec fn dl_references_id(s: Seq<DownloadModel>, id: int) -> bool {
    exists|i: int| 0 <= i < s.len() && (#[trigger] s[i]).id == id
}

/// Whether some sub-download in `s` carries the given id.
pub open spec fn sub_references_id(s: Seq<SubDownloadModel>, id: int) -> bool {
    exists|i: int| 0 <= i < s.len() && (#[trigger] s[i]).id == id
}

/// Ids are pairwise distinct.
pub open spec fn dl_ids_distinct(s: Seq<DownloadModel>) -> bool {
    forall|i: int, j: int|
        #![trigger s[i].id, s[j].id]
        0 <= i < j < s.len() ==> s[i].id != s[j].id
}

/// Ids are pairwise distinct.
pub open spec fn sub_ids_distinct(s: Seq<SubDownloadModel>) -> bool {
    forall|i: int, j: int|
        #![trigger s[i].id, s[j].id]
        0 <= i < j < s.len() ==> s[i].id != s[j].id
}

/// An in-memory store of whole-download records, keyed by id.
#[derive(Debug)]
pub struct HttpInMemoryStore {
    data: Vec<Download>,
}

impl View for HttpInMemoryStore {
    type V = Seq<DownloadModel>;

    closed spec fn view(&self) -> Seq<DownloadModel> {
        self.data.deep_view()
    }
}

impl HttpInMemoryStore {
    /// Whether the store is well-formed: no two records share an id.
    pub open spec fn wf(&self) -> bool {
        dl_ids_distinct(self@)
    }

    /// An empty store.
    pub fn new() -> (r: Self)
        ensures
            r.wf(),
            r@ == Seq::<DownloadModel>::empty(),
    {
        let r = HttpInMemoryStore { data: Vec::new() };
        proof {
            assert(r@ =~= Seq::<DownloadModel>::empty());
        }
        r
    }

    /// The record with this id, or nothing when no record carries it.
    pub fn download_by_id(&self, id: DownloadId) -> (r: Result<Option<Download>, Never>)
        requires
            self.wf(),
        ensures
            r is Ok,
            !dl_references_id(self@, id as int) ==> r == Result::<Option<Download>, Never>::Ok(
                None,
            ),
            dl_references_id(self@, id as int) ==> (r matches Ok(Some(d)) && forall|i: int|
                0 <= i < self@.len() && (#[trigger] self@[i]).id == id as int ==> d@ == self@[i]),
    {
        let n = self.data.len();
        let mut i: usize = 0;
        while i < n
            invariant
                self.wf(),
                n == self@.len(),
                self@ == self.data.deep_view(),
                i <= n,
                forall|j: int| 0 <= j < i ==> (#[trigger] self@[j]).id != id as int,
            decreases n - i,
        {
            assert(self@[i as int] == self.data[i as int]@);
            if self.data[i].id == id {
                return Ok(Some(self.data[i].duplicate()));
            }
            i = i + 1;
        }
        Ok(None)
    }

    /// All records with this URI, in store order; nothing when there are none.
    pub fn download_by_uri(&self, uri: &String) -> (r: Result<Option<Vec<Download>>, Never>)
        ensures
            r is Ok,
            self@.filter(dl_has_uri(uri@)).len() == 0 ==> r == Result::<
                Option<Vec<Download>>,
                Never,
            >::Ok(None),
            self@.filter(dl_has_uri(uri@)).len() > 0 ==> (r matches Ok(Some(v)) && v.deep_view()
                == self@.filter(dl_has_uri(uri@))),
    {
        let ghost pred = dl_has_uri(uri@);
        let mut out: Vec<Download> = Vec::new();
        proof {
            assert(self@.take(0).filter(pred) =~= Seq::<DownloadModel>::empty());
            assert(out.deep_view() =~= Seq::<DownloadModel>::empty());
        }
        let n = self.data.len();
        let mut i: usize = 0;
        while i < n
            invariant
                n == self@.len(),
                self@ == self.data.deep_view(),
                pred == dl_has_uri(uri@),
                i <= n,
                out.deep_view() == self@.take(i as int).filter(pred),
            decreases n - i,
        {
            let ghost prefix = self@.take(i as int);
            proof {
                assert(self@.take(i + 1) =~= prefix.push(self@[i as int]));
                lemma_filter_push(prefix, self@[i as int], pred);
            }
            assert(self@[i as int] == self.data[i as int]@);
            if self.data[i].uri.eq(uri) {
                out.push(self.data[i].duplicate());
                proof {
                    assert(out.deep_view() =~= prefix.filter(pred).push(self@[i as int]));
                }
            }
            i = i + 1;
        }
        proof {
            assert(self@.take(n as int) =~= self@);
        }
        if out.len() == 0 {
            Ok(None)
        } else {
            Ok(Some(out))
        }
    }

    /// Insert the record, or overwrite the one that already carries its id.
    pub fn store_download(&mut self, download: &Download) -> (r: Result<(), Never>)
        requires
            old(self).wf(),
        ensures
            final(self).wf(),
            r is Ok,
            !dl_references_id(old(self)@, download@.id) ==> final(self)@ == old(self)@.push(
                download@,
            ),
            forall|i: int|
                0 <= i < old(self)@.len() && (#[trigger] old(self)@[i]).id == download@.id
                    ==> final(self)@ == old(self)@.update(i, download@),
    {
        let n = self.data.len();
        let mut i: usize = 0;
        while i < n
            invariant
                old(self).wf(),
                self == old(self),
                n == self@.len(),
                i <= n,
                forall|j: int| 0 <= j < i ==> (#[trigger] self@[j]).id != download@.id,
            decreases n - i,
        {
            assert(self@[i as int] == self.data[i as int]@);
            if self.data[i].id == download.id {
                self.data.set(i, download.duplicate());
                proof {
                    let m0 = old(self)@;
                    assert(self@ =~= m0.update(i as int, download@));
                    assert forall|k: int, l: int|
                        #![trigger self@[k].id, self@[l].id]
                        0 <= k < l < self@.len() implies self@[k].id != self@[l].id by {
                        assert(self@[k].id == m0[k].id);
                        assert(self@[l].id == m0[l].id);
                    }
                    assert forall|i2: int|
                        0 <= i2 < m0.len() && (#[trigger] m0[i2]).id == download@.id implies self@
                        == m0.update(i2, download@) by {
                        if i2 != i as int {
                            assert(m0[i2].id != m0[i as int].id);
                        }
                    }
                }
                return Ok(());
            }
            i = i + 1;
        }
        self.data.push(download.duplicate());
        proof {
            let m0 = old(self)@;
            assert(self@ =~= m0.push(download@));
            assert forall|k: int, l: int|
                #![trigger self@[k].id, self@[l].id]
                0 <= k < l < self@.len() implies self@[k].id != self@[l].id by {
                if l < m0.len() {
                    assert(self@[k].id == m0[k].id);
                    assert(self@[l].id == m0[l].id);
                } else {
                    assert(self@[k].id == m0[k].id);
                    assert(self@[l] == download@);
                }
            }
        }
        Ok(())
    }

    /// Remove the record with this id if it is present; removing an absent id
    /// is a no-op, never an error.
    pub fn remove_download(&mut self, id: DownloadId) -> (r: Result<(), Never>)
        requires
            old(self).wf(),
        ensures
            final(self).wf(),
            r is Ok,
            final(self)@ == old(self)@.filter(dl_lacks_id(id as int)),
    {
        let ghost pred = dl_lacks_id(id as int);
        let mut kept: Vec<Download> = Vec::new();
        proof {
            assert(self@.take(0).filter(pred) =~= Seq::<DownloadModel>::empty());
            assert(kept.deep_view() =~= Seq::<DownloadModel>::empty());
        }
        let n = self.data.len();
        let mut i: usize = 0;
        while i < n
            invariant
                old(self).wf(),
                self == old(self),
                n == self@.len(),
                pred == dl_lacks_id(id as int),
                i <= n,
                kept.deep_view() == self@.take(i as int).filter(pred),
            decreases n - i,
        {
            let ghost prefix = self@.take(i as int);
            proof {
                assert(self@.take(i + 1) =~= prefix.push(self@[i as int]));
                lemma_filter_push(prefix, self@[i as int], pred);
            }
            assert(self@[i as int] == self.data[i as int]@);
            if self.data[i].id != id {
                kept.push(self.data[i].duplicate());
                proof {
                    assert(kept.deep_view() =~= prefix.filter(pred).push(self@[i as int]));
                }
            }
            i = i + 1;
        }
        proof {
            assert(self@.take(n as int) =~= self@);
        }
        self.data = kept;
        proof {
            let m0 = old(self)@;
            lemma_filter_sub(m0, pred);
            lemma_filter_pairwise(m0, pred, |a: DownloadModel, b: DownloadModel| a.id != b.id);
            assert forall|k: int, l: int|
                #![trigger self@[k].id, self@[l].id]
                0 <= k < l < self@.len() implies self@[k].id != self@[l].id by {
                assert(m0.filter(pred)[k] == self@[k]);
                assert(m0.filter(pred)[l] == self@[l]);
            }
        }
        Ok(())
    }
}

#[verifier::external_type_specification]
#[verifier::external_body]
#[verifier::reject_recursive_types(K)]
#[verifier::reject_recursive_types(V)]
#[verifier::reject_recursive_types(S)]
pub struct ExMultiMap<K, V, S>(multimap::MultiMap<K, V, S>);

/// What a multimap of download ids holds: for each key ever inserted, the
/// values inserted under it, oldest first.
pub uninterp spec fn multimap_contents(m: ParentIndex) -> Map<u64, Seq<u64>>;

/// An index with nothing in it.
pub open spec fn no_parents() -> Map<u64, Seq<u64>> {
    Map::empty()
}

/// Relies on multimap::MultiMap::new: an empty multimap.
#[verifier::external_body]
fn multimap_new() -> (r: ParentIndex)
    ensures
        multimap_contents(r) == no_parents(),
{
    multimap::MultiMap::new()
}

/// Relies on multimap::MultiMap::insert: appends the value to the key's
/// vector, creating the vector when the key is new.
#[verifier::external_body]
fn multimap_insert(m: &mut ParentIndex, k: u64, v: u64)
    ensures
        multimap_contents(*final(m)) == (if multimap_contents(*old(m)).dom().contains(k) {
            multimap_contents(*old(m)).insert(k, multimap_contents(*old(m))[k].push(v))
        } else {
            multimap_contents(*old(m)).insert(k, seq![v])
        }),
{
    m.insert(k, v);
}

/// Relies on multimap::MultiMap::get_vec: the values inserted under this key,
/// oldest first, or nothing when the key was never inserted.
#[verifier::external_body]
fn multimap_get_vec<'a>(m: &'a ParentIndex, k: &u64) -> (r: Option<&'a Vec<u64>>)
    ensures
        r is Some <==> multimap_contents(*m).dom().contains(*k),
        r matches Some(v) ==> v@ == multimap_contents(*m)[*k],
{
    m.get_vec(k)
}

/// Mathematical view of the sub-download store.
#[verifier::ext_equal]
pub struct SubStoreModel {
    /// The live sub-download records, in insertion order.
    pub data: Seq<SubDownloadModel>,
    /// For each parent download ever stored under, the sub-download ids
    /// inserted for it, oldest first.
    pub parents: Map<u64, Seq<u64>>,
}

/// An in-memory store of sub-download records, with a side index from parent
/// download ids to the sub-download ids stored under them.
pub struct SubHttpInMemoryStore {
    data: Vec<SubDownload>,
    parent_id_to_sub_download: ParentIndex,
}

impl View for SubHttpInMemoryStore {
    type V = SubStoreModel;

    closed spec fn view(&self) -> SubStoreModel {
        SubStoreModel {
            data: self.data.deep_view(),
            parents: multimap_contents(self.parent_id_to_sub_download),
        }
    }
}

impl SubHttpInMemoryStore {
    /// Whether the store is well-formed: record ids are pairwise distinct, and
    /// every parent in the index has at least one sub-download id under it.
    pub open spec fn wf(&self) -> bool {
        &&& sub_ids_distinct(self@.data)
        &&& forall|k: u64|
            self@.parents.dom().contains(k) ==> (#[trigger] self@.parents[k]).len() > 0
    }

    /// An empty store.
    pub fn new() -> (r: Self)
        ensures
            r.wf(),
            r@.data == Seq::<SubDownloadModel>::empty(),
            r@.parents == Map::<u64, Seq<u64>>::empty(),
    {
        let r = SubHttpInMemoryStore {
            data: Vec::new(),
            parent_id_to_sub_download: multimap_new(),
        };
        proof {
            assert(r@.data =~= Seq::<SubDownloadModel>::empty());
        }
        r
    }

    /// The sub-downloads stored for this parent: nothing when the parent was
    /// never stored under; otherwise every record carrying the first
    /// sub-download id that was stored for the parent.
    pub fn sub_download_by_parent(&self, parent: DownloadId) -> (r: Result<
        Option<Vec<SubDownload>>,
        Never,
    >)
        requires
            self.wf(),
        ensures
            r is Ok,
            !self@.parents.dom().contains(parent) ==> r == Result::<
                Option<Vec<SubDownload>>,
                Never,
            >::Ok(None),
            self@.parents.dom().contains(parent) ==> (r matches Ok(Some(v)) && v.deep_view()
                == self@.data.filter(sub_has_id(self@.parents[parent][0] as int))),
    {
        let ids = match multimap_get_vec(&self.parent_id_to_sub_download, &parent) {
            None => {
                return Ok(None);
            },
            Some(ids) => ids,
        };
        proof {
            assert(self@.parents[parent].len() > 0);
        }
        let id: SubDownloadId = ids[0];
        let ghost pred = sub_has_id(id as int);
        let mut out: Vec<SubDownload> = Vec::new();
        proof {
            assert(self@.data.take(0).filter(pred) =~= Seq::<SubDownloadModel>::empty());
            assert(out.deep_view() =~= Seq::<SubDownloadModel>::empty());
        }
        let n = self.data.len();
        let mut i: usize = 0;
        while i < n
            invariant
                n == self@.data.len(),
                self@.data == self.data.deep_view(),
                pred == sub_has_id(id as int),
                i <= n,
                out.deep_view() == self@.data.take(i as int).filter(pred),
            decreases n - i,
        {
            let ghost prefix = self@.data.take(i as int);
            proof {
                assert(self@.data.take(i + 1) =~= prefix.push(self@.data[i as int]));
                lemma_filter_push(prefix, self@.data[i as int], pred);
            }
            assert(self@.data[i as int] == self.data[i as int]@);
            if self.data[i].id == id {
                out.push(self.data[i].duplicate());
                proof {
                    assert(out.deep_view() =~= prefix.filter(pred).push(self@.data[i as int]));
                }
            }
            i = i + 1;
        }
        proof {
            assert(self@.data.take(n as int) =~= self@.data);
        }
        Ok(Some(out))
    }

    /// The record with this id, or nothing when no record carries it.
    pub fn sub_download_by_id(&self, id: SubDownloadId) -> (r: Result<Option<SubDownload>, Never>)
        requires
            self.wf(),
        ensures
            r is Ok,
            !sub_references_id(self@.data, id as int) ==> r == Result::<
                Option<SubDownload>,
                Never,
            >::Ok(None),
            sub_references_id(self@.data, id as int) ==> (r matches Ok(Some(d)) && forall|i: int|
                0 <= i < self@.data.len() && (#[trigger] self@.data[i]).id == id as int ==> d@
                    == self@.data[i]),
    {
        let n = self.data.len();
        let mut i: usize = 0;
        while i < n
            invariant
                self.wf(),
                n == self@.data.len(),
                self@.data == self.data.deep_view(),
                i <= n,
                forall|j: int| 0 <= j < i ==> (#[trigger] self@.data[j]).id != id as int,
            decreases n - i,
        {
            assert(self@.data[i as int] == self.data[i as int]@);
            if self.data[i].id == id {
                proof {
                    assert forall|i2: int|
                        0 <= i2 < self@.data.len() && (#[trigger] self@.data[i2]).id
                            == id as int implies self@.data[i2] == self@.data[i as int] by {
                        if i2 != i as int {
                            assert(self@.data[i2].id != self@.data[i as int].id);
                        }
                    }
                }
                return Ok(Some(self.data[i].duplicate()));
            }
            i = i + 1;
        }
        Ok(None)
    }

    /// All records with this URI, in store order; nothing when there are none.
    pub fn sub_download_by_uri(&self, uri: &String) -> (r: Result<Option<Vec<SubDownload>>, Never>)
        ensures
            r is Ok,
            self@.data.filter(sub_has_uri(uri@)).len() == 0 ==> r == Result::<
                Option<Vec<SubDownload>>,
                Never,
            >::Ok(None),
            self@.data.filter(sub_has_uri(uri@)).len() > 0 ==> (r matches Ok(Some(v))
                && v.deep_view() == self@.data.filter(sub_has_uri(uri@))),
    {
        let ghost pred = sub_has_uri(uri@);
        let mut out: Vec<SubDownload> = Vec::new();
        proof {
            assert(self@.data.take(0).filter(pred) =~= Seq::<SubDownloadModel>::empty());
            assert(out.deep_view() =~= Seq::<SubDownloadModel>::empty());
        }
        let n = self.data.len();
        let mut i: usize = 0;
        while i < n
            invariant
                n == self@.data.len(),
                self@.data == self.data.deep_view(),
                pred == sub_has_uri(uri@),
                i <= n,
                out.deep_view() == self@.data.take(i as int).filter(pred),
            decreases n - i,
        {
            let ghost prefix = self@.data.take(i as int);
            proof {
                assert(self@.data.take(i + 1) =~= prefix.push(self@.data[i as int]));
                lemma_filter_push(prefix, self@.data[i as int], pred);
            }
            assert(self@.data[i as int] == self.data[i as int]@);
            if self.data[i].uri.eq(uri) {
                out.push(self.data[i].duplicate());
                proof {
                    assert(out.deep_view() =~= prefix.filter(pred).push(self@.data[i as int]));
                }
            }
            i = i + 1;
        }
        proof {
            assert(self@.data.take(n as int) =~= self@.data);
        }
        if out.len() == 0 {
            Ok(None)
        } else {
            Ok(Some(out))
        }
    }

    /// Insert the record under the given parent, or overwrite the record that
    /// already carries its id; only a fresh insert extends the parent index.
    pub fn store_sub_download(&mut self, sub_download: &SubDownload, download_id: DownloadId) -> (r:
        Result<(), Never>)
        requires
            old(self).wf(),
        ensures
            final(self).wf(),
            r is Ok,
            !sub_references_id(old(self)@.data, sub_download@.id) ==> final(self)@.data == old(
                self,
            )@.data.push(sub_download@) && final(self)@.parents == (if old(
                self,
            )@.parents.dom().contains(download_id) {
                old(self)@.parents.insert(
                    download_id,
                    old(self)@.parents[download_id].push(sub_download.id),
                )
            } else {
                old(self)@.parents.insert(download_id, seq![sub_download.id])
            }),
            forall|i: int|
                0 <= i < old(self)@.data.len() && (#[trigger] old(self)@.data[i]).id
                    == sub_download@.id ==> final(self)@.data == old(self)@.data.update(
                    i,
                    sub_download@,
                ) && final(self)@.parents == old(self)@.parents,
    {
        let n = self.data.len();
        let mut i: usize = 0;
        while i < n
            invariant
                old(self).wf(),
                self == old(self),
                n == self@.data.len(),
                i <= n,
                forall|j: int| 0 <= j < i ==> (#[trigger] self@.data[j]).id != sub_download@.id,
            decreases n - i,
        {
            assert(self@.data[i as int] == self.data[i as int]@);
            if self.data[i].id == sub_download.id {
                self.data.set(i, sub_download.duplicate());
                proof {
                    let m0 = old(self)@.data;
                    assert(self@.data =~= m0.update(i as int, sub_download@));
                    assert forall|k: int, l: int|
                        #![trigger self@.data[k].id, self@.data[l].id]
                        0 <= k < l < self@.data.len() implies self@.data[k].id
                        != self@.data[l].id by {
                        assert(self@.data[k].id == m0[k].id);
                        assert(self@.data[l].id == m0[l].id);
                    }
                    assert forall|i2: int|
                        0 <= i2 < m0.len() && (#[trigger] m0[i2]).id == sub_download@.id implies self@.data
                        == m0.update(i2, sub_download@) by {
                        if i2 != i as int {
                            assert(m0[i2].id != m0[i as int].id);
                        }
                    }
                    assert forall|k: u64| self@.parents.dom().contains(k) implies (
                    #[trigger] self@.parents[k]).len() > 0 by {
                        assert(old(self)@.parents[k].len() > 0);
                    }
                }
                return Ok(());
            }
            i = i + 1;
        }
        self.data.push(sub_download.duplicate());
        multimap_insert(&mut self.parent_id_to_sub_download, download_id, sub_download.id);
        proof {
            let m0 = old(self)@.data;
            assert(self@.data =~= m0.push(sub_download@));
            let p0 = old(self)@.parents;
            let p1 = self@.parents;
            assert forall|k: u64| p1.dom().contains(k) implies (#[trigger] p1[k]).len() > 0 by {
                if k != download_id {
                    assert(p1[k] == p0[k]);
                    assert(p0.dom().contains(k));
                    assert(p0[k].len() > 0);
                }
            }
            assert forall|k: int, l: int|
                #![trigger self@.data[k].id, self@.data[l].id]
                0 <= k < l < self@.data.len() implies self@.data[k].id != self@.data[l].id by {
                if l < m0.len() {
                    assert(self@.data[k].id == m0[k].id);
                    assert(self@.data[l].id == m0[l].id);
                } else {
                    assert(self@.data[k].id == m0[k].id);
                    assert(self@.data[l] == sub_download@);
                }
            }
        }
        Ok(())
    }

    /// Remove the record with this id if it is present; removing an absent id
    /// is a no-op, never an error. The parent index is left as it was.
    pub fn remove_sub_download(&mut self, id: SubDownloadId) -> (r: Result<(), Never>)
        requires
            old(self).wf(),
        ensures
            final(self).wf(),
            r is Ok,
            final(self)@.data == old(self)@.data.filter(sub_lacks_id(id as int)),
            final(self)@.parents == old(self)@.parents,
    {
        let ghost pred = sub_lacks_id(id as int);
        let mut kept: Vec<SubDownload> = Vec::new();
        proof {
            assert(self@.data.take(0).filter(pred) =~= Seq::<SubDownloadModel>::empty());
            assert(kept.deep_view() =~= Seq::<SubDownloadModel>::empty());
        }
        let n = self.data.len();
        let mut i: usize = 0;
        while i < n
            invariant
                old(self).wf(),
                self == old(self),
                n == self@.data.len(),
                pred == sub_lacks_id(id as int),
                i <= n,
                kept.deep_view() == self@.data.take(i as int).filter(pred),
            decreases n - i,
        {
            let ghost prefix = self@.data.take(i as int);
            proof {
                assert(self@.data.take(i + 1) =~= prefix.push(self@.data[i as int]));
                lemma_filter_push(prefix, self@.data[i as int], pred);
            }
            assert(self@.data[i as int] == self.data[i as int]@);
            if self.data[i].id != id {
                kept.push(self.data[i].duplicate());
                proof {
                    assert(kept.deep_view() =~= prefix.filter(pred).push(self@.data[i as int]));
                }
            }
            i = i + 1;
        }
        proof {
            assert(self@.data.take(n as int) =~= self@.data);
        }
        self.data = kept;
        proof {
            let m0 = old(self)@.data;
            lemma_filter_sub(m0, pred);
            lemma_filter_pairwise(
                m0,
                pred,
                |a: SubDownloadModel, b: SubDownloadModel| a.id != b.id,
            );
            assert forall|k: int, l: int|
                #![trigger self@.data[k].id, self@.data[l].id]
                0 <= k < l < self@.data.len() implies self@.data[k].id != self@.data[l].id by {
                assert(m0.filter(pred)[k] == self@.data[k]);
                assert(m0.filter(pred)[l] == self@.data[l]);
            }
            assert forall|k: u64| self@.parents.dom().contains(k) implies (
            #[trigger] self@.parents[k]).len() > 0 by {
                assert(old(self)@.parents[k].len() > 0);
            }
        }
        Ok(())
    }
}

} // verus!
