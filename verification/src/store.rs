//! The segment store: a keyed collection of live segment records with the
//! transactional contract the download engine relies on. Two parent tables
//! (`url`, `file_path`) are kept by reference so segment rows cascade-delete
//! cleanly; they carry no content beyond the strings themselves.

use vstd::prelude::*;

use crate::errors::StoreError;
use crate::segment::{SegmentModel, SubDownload};

verus! {

/// Mathematical view of the whole store.
#[verifier::ext_equal]
pub struct StoreModel {
    /// Live segment records, in insertion order.
    pub segments: Seq<SegmentModel>,
    /// Parent table of unique URL strings.
    pub urls: Seq<Seq<char>>,
    /// Parent table of unique destination path strings.
    pub paths: Seq<Seq<char>>,
    /// The id the next successful insert hands out.
    pub next_id: int,
}

/// Durable mapping of live download segments.
pub struct SegmentStore {
    segments: Vec<SubDownload>,
    urls: Vec<String>,
    paths: Vec<String>,
    next_id: i32,
}

impl View for SegmentStore {
    type V = StoreModel;

    closed spec fn view(&self) -> StoreModel {
        StoreModel {
            segments: self.segments.deep_view(),
            urls: self.urls.deep_view(),
            paths: self.paths.deep_view(),
            next_id: self.next_id as int,
        }
    }
}

/// The predicate "this record's URL equals `url`".
pub open spec fn seg_has_url(url: Seq<char>) -> spec_fn(SegmentModel) -> bool {
    |s: SegmentModel| s.url == url
}

/// The predicate "this record's id differs from `id`".
pub open spec fn seg_lacks_id(id: int) -> spec_fn(SegmentModel) -> bool {
    |s: SegmentModel| s.id != id
}

/// The predicate "this record's URL differs from `url`".
pub open spec fn seg_lacks_url(url: Seq<char>) -> spec_fn(SegmentModel) -> bool {
    |s: SegmentModel| s.url != url
}

/// The predicate "this string differs from `u`".
pub open spec fn str_differs(u: Seq<char>) -> spec_fn(Seq<char>) -> bool {
    |x: Seq<char>| x != u
}

/// The predicate that decides which path keys survive a cascade: a path stays
/// when a kept record still references it, or when none of the removed records
/// referenced it in the first place.
pub open spec fn cascade_keeps(kept: Seq<SegmentModel>, removed: Seq<SegmentModel>) -> spec_fn(
    Seq<char>,
) -> bool {
    |p: Seq<char>| references_path(kept, p) || !references_path(removed, p)
}

/// The records with the given URL, in store order.
pub open spec fn segments_for(segments: Seq<SegmentModel>, url: Seq<char>) -> Seq<SegmentModel> {
    segments.filter(seg_has_url(url))
}

/// The records whose id differs from the given one, in store order.
pub open spec fn segments_without_id(segments: Seq<SegmentModel>, id: int) -> Seq<SegmentModel> {
    segments.filter(seg_lacks_id(id))
}

/// The records whose URL differs from the given one, in store order.
pub open spec fn segments_without_url(segments: Seq<SegmentModel>, url: Seq<char>) -> Seq<
    SegmentModel,
> {
    segments.filter(seg_lacks_url(url))
}

/// Whether some record in `segments` references the path `p`.
pub open spec fn references_path(segments: Seq<SegmentModel>, p: Seq<char>) -> bool {
    exists|i: int| 0 <= i < segments.len() && (#[trigger] segments[i]).file_path == p
}

/// A parent-table entry, extended by `s` if it is not present yet.
pub open spec fn table_with(table: Seq<Seq<char>>, s: Seq<char>) -> Seq<Seq<char>> {
    if table.contains(s) {
        table
    } else {
        table.push(s)
    }
}

/// Well-formedness of the store: ids are positive, unique and below the next
/// fresh id; every record's parent strings are in the parent tables; parent
/// tables hold no duplicates.
pub open spec fn store_wf(m: StoreModel) -> bool {
    &&& 1 <= m.next_id <= i32::MAX
    &&& forall|i: int| 0 <= i < m.segments.len() ==> 0 < (#[trigger] m.segments[i]).id < m.next_id
    &&& forall|i: int, j: int|
        #![trigger m.segments[i].id, m.segments[j].id]
        0 <= i < j < m.segments.len() ==> m.segments[i].id != m.segments[j].id
    &&& forall|i: int| 0 <= i < m.segments.len() ==> m.urls.contains((#[trigger] m.segments[i]).url)
    &&& forall|i: int|
        0 <= i < m.segments.len() ==> m.paths.contains((#[trigger] m.segments[i]).file_path)
    &&& forall|i: int, j: int|
        #![trigger m.urls[i], m.urls[j]]
        0 <= i < j < m.urls.len() ==> m.urls[i] != m.urls[j]
    &&& forall|i: int, j: int|
        #![trigger m.paths[i], m.paths[j]]
        0 <= i < j < m.paths.len() ==> m.paths[i] != m.paths[j]
}

/// The store after a successful insert of a record with the given fields: the
/// record is appended under the fresh id, absent parent keys are materialized,
/// and the fresh-id counter moves on.
pub open spec fn add_model(m: StoreModel, d: SegmentModel) -> StoreModel {
    StoreModel {
        segments: m.segments.push(
            SegmentModel {
                id: m.next_id,
                url: d.url,
                offset: d.offset,
                remaining: d.remaining,
                file_path: d.file_path,
            },
        ),
        urls: table_with(m.urls, d.url),
        paths: table_with(m.paths, d.file_path),
        next_id: m.next_id + 1,
    }
}

proof fn lemma_table_with(table: Seq<Seq<char>>, s: Seq<char>)
    requires
        forall|i: int, j: int|
            #![trigger table[i], table[j]]
            0 <= i < j < table.len() ==> table[i] != table[j],
    ensures
        table_with(table, s).contains(s),
        forall|x: Seq<char>| #[trigger] table.contains(x) ==> table_with(table, s).contains(x),
        forall|i: int, j: int|
            #![trigger table_with(table, s)[i], table_with(table, s)[j]]
            0 <= i < j < table_with(table, s).len() ==> table_with(table, s)[i] != table_with(
                table,
                s,
            )[j],
{
    let t2 = table_with(table, s);
    if !table.contains(s) {
        assert(t2[table.len() as int] == s);
        assert forall|x: Seq<char>| #[trigger] table.contains(x) implies t2.contains(x) by {
            let i = choose|i: int| 0 <= i < table.len() && table[i] == x;
            assert(t2[i] == x);
        }
        assert forall|i: int, j: int| 0 <= i < j < t2.len() implies t2[i] != t2[j] by {
            if j == table.len() {
                assert(t2[i] == table[i]);
                if table[i] == s {
                    assert(table.contains(s));
                }
            } else {
                assert(t2[i] == table[i] && t2[j] == table[j]);
            }
        }
    }
}

/// Filtering a sequence extended by one element keeps the already-filtered
/// prefix and appends the new element exactly when it matches.
pub(crate) proof fn lemma_filter_push<A>(s: Seq<A>, x: A, pred: spec_fn(A) -> bool)
    ensures
        s.push(x).filter(pred) == if pred(x) {
            s.filter(pred).push(x)
        } else {
            s.filter(pred)
        },
{
    reveal(Seq::filter);
    assert(s.push(x).drop_last() =~= s);
    assert(s.push(x).last() == x);
}

/// Everything a filter keeps was in the sequence.
pub(crate) proof fn lemma_filter_sub<A>(s: Seq<A>, pred: spec_fn(A) -> bool)
    ensures
        forall|x: A| #[trigger] s.filter(pred).contains(x) ==> s.contains(x),
    decreases s.len(),
{
    reveal(Seq::filter);
    if s.len() > 0 {
        let sub = s.drop_last();
        lemma_filter_sub(sub, pred);
        assert forall|x: A| #[trigger] s.filter(pred).contains(x) implies s.contains(x) by {
            if sub.filter(pred).contains(x) {
                let k = choose|k: int| 0 <= k < sub.len() && sub[k] == x;
                assert(s[k] == x);
            } else {
                assert(x == s.last());
                assert(s[s.len() - 1] == x);
            }
        }
    }
}

/// A filter of a sequence whose elements are pairwise apart (under any
/// irreflexive relation such as distinct ids) is again pairwise apart.
pub(crate) proof fn lemma_filter_pairwise<A>(s: Seq<A>, pred: spec_fn(A) -> bool, apart: spec_fn(A, A) -> bool)
    requires
        forall|i: int, j: int|
            #![trigger s[i], s[j]]
            0 <= i < j < s.len() ==> apart(s[i], s[j]),
    ensures
        forall|i: int, j: int|
            #![trigger s.filter(pred)[i], s.filter(pred)[j]]
            0 <= i < j < s.filter(pred).len() ==> apart(s.filter(pred)[i], s.filter(pred)[j]),
    decreases s.len(),
{
    reveal(Seq::filter);
    if s.len() > 0 {
        let sub = s.drop_last();
        assert(forall|i: int, j: int|
            #![trigger sub[i], sub[j]]
            0 <= i < j < sub.len() ==> apart(sub[i], sub[j]));
        lemma_filter_pairwise(sub, pred, apart);
        lemma_filter_sub(sub, pred);
        let f = s.filter(pred);
        let fsub = sub.filter(pred);
        assert forall|i: int, j: int| 0 <= i < j < f.len() implies apart(f[i], f[j]) by {
            if pred(s.last()) && j == f.len() - 1 {
                assert(f == fsub.push(s.last()));
                assert(f[i] == fsub[i]);
                assert(fsub.contains(fsub[i]));
                assert(sub.contains(fsub[i]));
                let k = choose|k: int| 0 <= k < sub.len() && sub[k] == fsub[i];
                assert(apart(s[k], s[s.len() - 1]));
            } else {
                assert(f[i] == fsub[i] && f[j] == fsub[j]);
            }
        }
    }
}

/// Inserting a record into a well-formed store keeps it well-formed.
proof fn lemma_add_preserves_wf(m: StoreModel, d: SegmentModel)
    requires
        store_wf(m),
        m.next_id < i32::MAX,
    ensures
        store_wf(add_model(m, d)),
{
    let m2 = add_model(m, d);
    lemma_table_with(m.urls, d.url);
    lemma_table_with(m.paths, d.file_path);
    assert forall|i: int| 0 <= i < m2.segments.len() implies m2.urls.contains(
        (#[trigger] m2.segments[i]).url,
    ) && m2.paths.contains(m2.segments[i].file_path) by {
        if i < m.segments.len() {
            assert(m2.segments[i] == m.segments[i]);
            assert(m.urls.contains(m.segments[i].url));
            assert(m.paths.contains(m.segments[i].file_path));
        } else {
            assert(m2.segments[i].url == d.url);
            assert(m2.segments[i].file_path == d.file_path);
        }
    }
}

/// Whether `v` holds a string whose characters equal `s`.
fn contains_string(v: &Vec<String>, s: &String) -> (r: bool)
    ensures
        r == v.deep_view().contains(s@),
{
    let mut i: usize = 0;
    while i < v.len()
        invariant
            i <= v@.len(),
            v.deep_view().len() == v@.len(),
            forall|j: int| 0 <= j < i ==> v.deep_view()[j] != s@,
        decreases v@.len() - i,
    {
        assert(v.deep_view()[i as int] == v@[i as int]@);
        if v[i].eq(s) {
            return true;
        }
        i = i + 1;
    }
    false
}

impl SegmentStore {
    /// Whether the store is well-formed. Constructors establish this and every
    /// operation preserves it.
    pub open spec fn wf(&self) -> bool {
        store_wf(self@)
    }

    /// An empty store: no records, no parent keys, ids start at one.
    pub fn new() -> (r: Self)
        ensures
            r.wf(),
            r@.segments.len() == 0,
            r@.urls.len() == 0,
            r@.paths.len() == 0,
            r@.next_id == 1,
    {
        let r = SegmentStore { segments: Vec::new(), urls: Vec::new(), paths: Vec::new(), next_id: 1 };
        proof {
            assert(r@.segments =~= Seq::<SegmentModel>::empty());
            assert(r@.urls =~= Seq::<Seq<char>>::empty());
            assert(r@.paths =~= Seq::<Seq<char>>::empty());
        }
        r
    }

    /// Insert a new record, materializing absent parent keys, and return the
    /// fresh id. Fails only when the store cannot mint a fresh id any more;
    /// the store is then unchanged.
    pub fn add_download(&mut self, download: &SubDownload) -> (r: Result<i32, StoreError>)
        requires
            old(self).wf(),
        ensures
            final(self).wf(),
            old(self)@.next_id == i32::MAX ==> r == Result::<i32, StoreError>::Err(
                StoreError::Conflict,
            ) && final(self)@ == old(self)@,
            old(self)@.next_id < i32::MAX ==> r == Result::<i32, StoreError>::Ok(
                old(self)@.next_id as i32,
            ) && final(self)@ == add_model(old(self)@, download@),
    {
        if self.next_id == i32::MAX {
            return Err(StoreError::Conflict);
        }
        let id = self.next_id;
        if !contains_string(&self.urls, &download.url) {
            self.urls.push(download.url.clone());
        }
        if !contains_string(&self.paths, &download.file_path) {
            self.paths.push(download.file_path.clone());
        }
        self.segments.push(
            SubDownload {
                id,
                url: download.url.clone(),
                offset: download.offset,
                remaining: download.remaining,
                file_path: download.file_path.clone(),
            },
        );
        self.next_id = id + 1;
        proof {
            let m = add_model(old(self)@, download@);
            assert(self@.segments =~= m.segments);
            assert(self@.urls =~= m.urls);
            assert(self@.paths =~= m.paths);
            assert(self@ =~= m);
            lemma_add_preserves_wf(old(self)@, download@);
        }
        Ok(id)
    }

    /// All live records for the given URL, in store order; the empty list (not
    /// an error) when there are none.
    pub fn downloads_by_url(&self, url: &String) -> (r: Result<Vec<SubDownload>, StoreError>)
        ensures
            r matches Ok(segs) && segs.deep_view() == segments_for(self@.segments, url@),
    {
        let ghost pred = seg_has_url(url@);
        let mut out: Vec<SubDownload> = Vec::new();
        proof {
            assert(self@.segments.take(0).filter(pred) =~= Seq::<SegmentModel>::empty());
            assert(out.deep_view() =~= Seq::<SegmentModel>::empty());
        }
        let mut i: usize = 0;
        while i < self.segments.len()
            invariant
                i <= self.segments.len(),
                pred == seg_has_url(url@),
                self@.segments.len() == self.segments.len(),
                self@.segments == self.segments.deep_view(),
                out.deep_view() == self@.segments.take(i as int).filter(pred),
            decreases self.segments.len() - i,
        {
            let ghost prefix = self@.segments.take(i as int);
            proof {
                assert(self@.segments.take(i + 1) =~= prefix.push(self@.segments[i as int]));
                lemma_filter_push(prefix, self@.segments[i as int], pred);
            }
            let d = &self.segments[i];
            assert(d@ == self@.segments[i as int]);
            if d.url.eq(url) {
                out.push(d.clone());
                proof {
                    assert(out.deep_view() =~= prefix.filter(pred).push(d@));
                }
            }
            i = i + 1;
        }
        proof {
            assert(self@.segments.take(self.segments.len() as int) =~= self@.segments);
        }
        Ok(out)
    }

    /// Overwrite the record whose id matches. Unknown ids fail with `NotFound`;
    /// a matching record whose immutable `url` or `file_path` disagrees with
    /// the argument means the store no longer describes the same transfer, and
    /// fails with `Corrupt`. In both failure cases the store is unchanged.
    pub fn update_download(&mut self, download: &SubDownload) -> (r: Result<(), StoreError>)
        requires
            old(self).wf(),
        ensures
            final(self).wf(),
            !references_id(old(self)@.segments, download@.id) ==> r == Result::<
                (),
                StoreError,
            >::Err(StoreError::NotFound) && final(self)@ == old(self)@,
            forall|i: int|
                0 <= i < old(self)@.segments.len() && (#[trigger] old(
                    self,
                )@.segments[i]).id == download@.id ==> if old(self)@.segments[i].url
                    == download@.url && old(self)@.segments[i].file_path == download@.file_path {
                    r == Result::<(), StoreError>::Ok(()) && final(self)@ == (StoreModel {
                        segments: old(self)@.segments.update(i, download@),
                        ..old(self)@
                    })
                } else {
                    r == Result::<(), StoreError>::Err(StoreError::Corrupt) && final(self)@ == old(
                        self,
                    )@
                },
    {
        let n = self.segments.len();
        let mut i: usize = 0;
        while i < n
            invariant
                old(self).wf(),
                self == old(self),
                n == self.segments.len(),
                i <= n,
                forall|j: int| 0 <= j < i ==> (#[trigger] self@.segments[j]).id != download@.id,
            decreases n - i,
        {
            assert(self@.segments[i as int] == self.segments[i as int]@);
            if self.segments[i].id == download.id {
                let matches_parents = self.segments[i].url.eq(&download.url)
                    && self.segments[i].file_path.eq(&download.file_path);
                if !matches_parents {
                    return Err(StoreError::Corrupt);
                }
                self.segments.set(i, download.clone());
                proof {
                    let m0 = old(self)@;
                    assert(self@.segments =~= m0.segments.update(i as int, download@));
                    assert(self@ =~= StoreModel {
                        segments: m0.segments.update(i as int, download@),
                        ..m0
                    });
                    assert forall|k: int|
                        0 <= k < self@.segments.len() implies 0 < (#[trigger] self@.segments[k]).id
                        < self@.next_id && self@.urls.contains(self@.segments[k].url)
                        && self@.paths.contains(self@.segments[k].file_path) by {
                        if k != i as int {
                            assert(self@.segments[k] == m0.segments[k]);
                        } else {
                            assert(self@.segments[k].id == m0.segments[i as int].id);
                            assert(self@.segments[k].url == m0.segments[i as int].url);
                            assert(self@.segments[k].file_path == m0.segments[i as int].file_path);
                        }
                    }
                    assert forall|k: int, l: int|
                        #![trigger self@.segments[k].id, self@.segments[l].id]
                        0 <= k < l < self@.segments.len() implies self@.segments[k].id
                        != self@.segments[l].id by {
                        assert(self@.segments[k].id == m0.segments[k].id);
                        assert(self@.segments[l].id == m0.segments[l].id);
                    }
                }
                return Ok(());
            }
            i = i + 1;
        }
        Err(StoreError::NotFound)
    }

    /// Remove the record with the given id if it is present; removing an
    /// absent id is a no-op, never an error. Parent keys stay behind.
    pub fn remove_by_id(&mut self, id: i32) -> (r: Result<(), StoreError>)
        requires
            old(self).wf(),
        ensures
            final(self).wf(),
            r == Result::<(), StoreError>::Ok(()),
            final(self)@ == (StoreModel {
                segments: segments_without_id(old(self)@.segments, id as int),
                ..old(self)@
            }),
    {
        let ghost pred = seg_lacks_id(id as int);
        let mut kept: Vec<SubDownload> = Vec::new();
        proof {
            assert(self@.segments.take(0).filter(pred) =~= Seq::<SegmentModel>::empty());
            assert(kept.deep_view() =~= Seq::<SegmentModel>::empty());
        }
        let n = self.segments.len();
        let mut i: usize = 0;
        while i < n
            invariant
                old(self).wf(),
                self == old(self),
                n == self.segments.len(),
                pred == seg_lacks_id(id as int),
                i <= n,
                kept.deep_view() == self@.segments.take(i as int).filter(pred),
            decreases n - i,
        {
            let ghost prefix = self@.segments.take(i as int);
            proof {
                assert(self@.segments.take(i + 1) =~= prefix.push(self@.segments[i as int]));
                lemma_filter_push(prefix, self@.segments[i as int], pred);
            }
            let d = &self.segments[i];
            assert(d@ == self@.segments[i as int]);
            if d.id != id {
                kept.push(d.clone());
                proof {
                    assert(kept.deep_view() =~= prefix.filter(pred).push(d@));
                }
            }
            i = i + 1;
        }
        proof {
            assert(self@.segments.take(n as int) =~= self@.segments);
        }
        self.segments = kept;
        proof {
            let m0 = old(self)@;
            assert(self@ =~= StoreModel {
                segments: segments_without_id(m0.segments, id as int),
                ..m0
            });
            lemma_filter_sub(m0.segments, pred);
            lemma_filter_pairwise(
                m0.segments,
                pred,
                |a: SegmentModel, b: SegmentModel| a.id != b.id,
            );
            assert forall|k: int| 0 <= k < self@.segments.len() implies 0 < (
            #[trigger] self@.segments[k]).id < self@.next_id && self@.urls.contains(
                self@.segments[k].url,
            ) && self@.paths.contains(self@.segments[k].file_path) by {
                assert(self@.segments.contains(self@.segments[k]));
                assert(m0.segments.contains(self@.segments[k]));
                let j = choose|j: int|
                    0 <= j < m0.segments.len() && m0.segments[j] == self@.segments[k];
                assert(m0.segments[j] == self@.segments[k]);
            }
        }
        Ok(())
    }
}

/// Whether some record in `segments` carries the given id.
pub open spec fn references_id(segments: Seq<SegmentModel>, id: int) -> bool {
    exists|i: int| 0 <= i < segments.len() && (#[trigger] segments[i]).id == id
}

/// The store after all segments of one URL were removed, with the cascade to
/// the parent tables: the URL's own key goes away, and so does every path key
/// that only the removed segments referenced.
pub open spec fn remove_url_model(m: StoreModel, u: Seq<char>) -> StoreModel {
    StoreModel {
        segments: segments_without_url(m.segments, u),
        urls: m.urls.filter(str_differs(u)),
        paths: m.paths.filter(
            cascade_keeps(segments_without_url(m.segments, u), segments_for(m.segments, u)),
        ),
        next_id: m.next_id,
    }
}

/// Whether `v` holds a record whose destination path equals `p`.
fn references_path_exec(v: &Vec<SubDownload>, p: &String) -> (r: bool)
    ensures
        r == references_path(v.deep_view(), p@),
{
    let mut i: usize = 0;
    while i < v.len()
        invariant
            i <= v@.len(),
            v.deep_view().len() == v@.len(),
            forall|j: int| 0 <= j < i ==> (#[trigger] v.deep_view()[j]).file_path != p@,
        decreases v@.len() - i,
    {
        assert(v.deep_view()[i as int] == v@[i as int]@);
        if v[i].file_path.eq(p) {
            return true;
        }
        i = i + 1;
    }
    false
}

impl SegmentStore {
    /// Remove every segment of the given URL and cascade to the parent tables:
    /// the URL key is dropped, and so is every path key referenced only by the
    /// removed segments.
    pub fn remove_by_url(&mut self, url: &String) -> (r: Result<(), StoreError>)
        requires
            old(self).wf(),
        ensures
            final(self).wf(),
            r == Result::<(), StoreError>::Ok(()),
            final(self)@ == remove_url_model(old(self)@, url@),
    {
        let ghost m0 = self@;
        let ghost keep_pred = seg_lacks_url(url@);
        let ghost drop_pred = seg_has_url(url@);
        let mut kept: Vec<SubDownload> = Vec::new();
        let mut removed: Vec<SubDownload> = Vec::new();
        proof {
            assert(m0.segments.take(0).filter(keep_pred) =~= Seq::<SegmentModel>::empty());
            assert(m0.segments.take(0).filter(drop_pred) =~= Seq::<SegmentModel>::empty());
            assert(kept.deep_view() =~= Seq::<SegmentModel>::empty());
            assert(removed.deep_view() =~= Seq::<SegmentModel>::empty());
        }
        let n = self.segments.len();
        let mut i: usize = 0;
        while i < n
            invariant
                self == old(self),
                m0 == self@,
                n == self.segments.len(),
                keep_pred == seg_lacks_url(url@),
                drop_pred == seg_has_url(url@),
                i <= n,
                kept.deep_view() == m0.segments.take(i as int).filter(keep_pred),
                removed.deep_view() == m0.segments.take(i as int).filter(drop_pred),
            decreases n - i,
        {
            let ghost prefix = m0.segments.take(i as int);
            proof {
                assert(m0.segments.take(i + 1) =~= prefix.push(m0.segments[i as int]));
                lemma_filter_push(prefix, m0.segments[i as int], keep_pred);
                lemma_filter_push(prefix, m0.segments[i as int], drop_pred);
            }
            let d = &self.segments[i];
            assert(d@ == m0.segments[i as int]);
            if d.url.eq(url) {
                removed.push(d.clone());
                proof {
                    assert(removed.deep_view() =~= prefix.filter(drop_pred).push(d@));
                }
            } else {
                kept.push(d.clone());
                proof {
                    assert(kept.deep_view() =~= prefix.filter(keep_pred).push(d@));
                }
            }
            i = i + 1;
        }
        proof {
            assert(m0.segments.take(n as int) =~= m0.segments);
        }
        let ghost url_pred = str_differs(url@);
        let mut new_urls: Vec<String> = Vec::new();
        proof {
            assert(m0.urls.take(0).filter(url_pred) =~= Seq::<Seq<char>>::empty());
            assert(new_urls.deep_view() =~= Seq::<Seq<char>>::empty());
        }
        let un = self.urls.len();
        let mut i: usize = 0;
        while i < un
            invariant
                self == old(self),
                m0 == self@,
                un == self.urls.len(),
                url_pred == str_differs(url@),
                i <= un,
                new_urls.deep_view() == m0.urls.take(i as int).filter(url_pred),
            decreases un - i,
        {
            let ghost prefix = m0.urls.take(i as int);
            proof {
                assert(m0.urls.take(i + 1) =~= prefix.push(m0.urls[i as int]));
                lemma_filter_push(prefix, m0.urls[i as int], url_pred);
            }
            let s = &self.urls[i];
            assert(s@ == m0.urls[i as int]);
            if !s.eq(url) {
                new_urls.push(s.clone());
                proof {
                    assert(new_urls.deep_view() =~= prefix.filter(url_pred).push(s@));
                }
            }
            i = i + 1;
        }
        proof {
            assert(m0.urls.take(un as int) =~= m0.urls);
        }
        let ghost path_pred = cascade_keeps(
            segments_without_url(m0.segments, url@),
            segments_for(m0.segments, url@),
        );
        let mut new_paths: Vec<String> = Vec::new();
        proof {
            assert(m0.paths.take(0).filter(path_pred) =~= Seq::<Seq<char>>::empty());
            assert(new_paths.deep_view() =~= Seq::<Seq<char>>::empty());
        }
        let pn = self.paths.len();
        let mut i: usize = 0;
        while i < pn
            invariant
                self == old(self),
                m0 == self@,
                pn == self.paths.len(),
                path_pred == cascade_keeps(
                    segments_without_url(m0.segments, url@),
                    segments_for(m0.segments, url@),
                ),
                kept.deep_view() == segments_without_url(m0.segments, url@),
                removed.deep_view() == segments_for(m0.segments, url@),
                i <= pn,
                new_paths.deep_view() == m0.paths.take(i as int).filter(path_pred),
            decreases pn - i,
        {
            let ghost prefix = m0.paths.take(i as int);
            proof {
                assert(m0.paths.take(i + 1) =~= prefix.push(m0.paths[i as int]));
                lemma_filter_push(prefix, m0.paths[i as int], path_pred);
            }
            let p = &self.paths[i];
            assert(p@ == m0.paths[i as int]);
            if references_path_exec(&kept, p) || !references_path_exec(&removed, p) {
                new_paths.push(p.clone());
                proof {
                    assert(new_paths.deep_view() =~= prefix.filter(path_pred).push(p@));
                }
            }
            i = i + 1;
        }
        proof {
            assert(m0.paths.take(pn as int) =~= m0.paths);
        }
        self.segments = kept;
        self.urls = new_urls;
        self.paths = new_paths;
        proof {
            let m2 = remove_url_model(m0, url@);
            assert(self@ =~= m2);
            lemma_remove_url_preserves_wf(m0, url@);
        }
        Ok(())
    }
}

impl SegmentStore {
    /// Whether the store can still mint `k` fresh ids.
    pub fn capacity_for(&self, k: usize) -> (r: bool)
        requires
            self.wf(),
        ensures
            r == (self@.next_id + k <= i32::MAX),
    {
        let room = i32::MAX - self.next_id;
        (k as u64) <= (room as u64)
    }

    /// All live segment records, in insertion order.
    pub fn segments(&self) -> (r: &Vec<SubDownload>)
        ensures
            r.deep_view() == self@.segments,
    {
        &self.segments
    }

    /// The URL parent table.
    pub fn urls(&self) -> (r: &Vec<String>)
        ensures
            r.deep_view() == self@.urls,
    {
        &self.urls
    }

    /// The destination-path parent table.
    pub fn file_paths(&self) -> (r: &Vec<String>)
        ensures
            r.deep_view() == self@.paths,
    {
        &self.paths
    }
}

/// A filter that no element satisfies keeps nothing.
pub(crate) proof fn lemma_filter_drop_all<A>(s: Seq<A>, pred: spec_fn(A) -> bool)
    requires
        forall|i: int| 0 <= i < s.len() ==> !pred(#[trigger] s[i]),
    ensures
        s.filter(pred) == Seq::<A>::empty(),
    decreases s.len(),
{
    reveal(Seq::filter);
    if s.len() > 0 {
        let sub = s.drop_last();
        lemma_filter_drop_all(sub, pred);
        assert(!pred(s.last()));
    }
}

/// Store round-trip: inserting a segment and then listing its URL yields a
/// list holding a record with the same `url`, `offset`, `remaining` and
/// `file_path`, under exactly the id the insert returned.
pub proof fn lemma_store_round_trip(m: StoreModel, d: SegmentModel)
    requires
        store_wf(m),
        m.next_id < i32::MAX,
    ensures
        segments_for(add_model(m, d).segments, d.url).contains(
            SegmentModel {
                id: m.next_id,
                url: d.url,
                offset: d.offset,
                remaining: d.remaining,
                file_path: d.file_path,
            },
        ),
{
    let rec = SegmentModel {
        id: m.next_id,
        url: d.url,
        offset: d.offset,
        remaining: d.remaining,
        file_path: d.file_path,
    };
    lemma_filter_push(m.segments, rec, seg_has_url(d.url));
    let listed = segments_for(add_model(m, d).segments, d.url);
    assert(listed == segments_for(m.segments, d.url).push(rec));
    assert(listed[listed.len() - 1] == rec);
}

/// Distinct ids: two successive inserts hand out different ids, even when the
/// two records carry identical field values.
pub proof fn lemma_distinct_ids(m: StoreModel, d1: SegmentModel, d2: SegmentModel)
    requires
        store_wf(m),
        m.next_id + 1 < i32::MAX,
    ensures
        add_model(m, d1).next_id == m.next_id + 1,
        m.next_id != add_model(m, d1).next_id,
{
}

/// Cascade removal: after removing one URL, no segment of that URL survives,
/// its key is gone from the URL table, and every path key that only its
/// segments referenced is gone from the path table.
pub proof fn lemma_cascade_removal(m: StoreModel, u: Seq<char>)
    requires
        store_wf(m),
    ensures
        segments_for(remove_url_model(m, u).segments, u) == Seq::<SegmentModel>::empty(),
        !remove_url_model(m, u).urls.contains(u),
        forall|p: Seq<char>|
            references_path(segments_for(m.segments, u), p) && !references_path(
                segments_without_url(m.segments, u),
                p,
            ) ==> !(#[trigger] remove_url_model(m, u).paths.contains(p)),
{
    let m2 = remove_url_model(m, u);
    assert forall|i: int| 0 <= i < m2.segments.len() implies !seg_has_url(u)(
        #[trigger] m2.segments[i],
    ) by {
        m.segments.lemma_filter_pred(seg_lacks_url(u), i);
    }
    lemma_filter_drop_all(m2.segments, seg_has_url(u));
    if m2.urls.contains(u) {
        let i = choose|i: int| 0 <= i < m2.urls.len() && m2.urls[i] == u;
        m.urls.lemma_filter_pred(str_differs(u), i);
    }
    assert forall|p: Seq<char>|
        references_path(segments_for(m.segments, u), p) && !references_path(
            segments_without_url(m.segments, u),
            p,
        ) implies !(#[trigger] m2.paths.contains(p)) by {
        if m2.paths.contains(p) {
            let i = choose|i: int| 0 <= i < m2.paths.len() && m2.paths[i] == p;
            m.paths.lemma_filter_pred(
                cascade_keeps(segments_without_url(m.segments, u), segments_for(m.segments, u)),
                i,
            );
        }
    }
}

/// Partial removal by id: after inserting segments `a` then `b` into an empty
/// store and removing the first insert's id, exactly one record remains, and
/// it is `b` under the second insert's id.
pub proof fn lemma_partial_removal(m: StoreModel, a: SegmentModel, b: SegmentModel)
    requires
        store_wf(m),
        m.segments.len() == 0,
        m.next_id + 1 < i32::MAX,
    ensures
        ({
            let ida = m.next_id;
            let m2 = add_model(add_model(m, a), b);
            let idb = add_model(m, a).next_id;
            let left = segments_without_id(m2.segments, ida);
            &&& left.len() == 1
            &&& left[0] == (SegmentModel {
                id: idb,
                url: b.url,
                offset: b.offset,
                remaining: b.remaining,
                file_path: b.file_path,
            })
        }),
{
    let ida = m.next_id;
    let idb = ida + 1;
    let ra = SegmentModel {
        id: ida,
        url: a.url,
        offset: a.offset,
        remaining: a.remaining,
        file_path: a.file_path,
    };
    let rb = SegmentModel {
        id: idb,
        url: b.url,
        offset: b.offset,
        remaining: b.remaining,
        file_path: b.file_path,
    };
    let m2 = add_model(add_model(m, a), b);
    assert(m2.segments =~= m.segments.push(ra).push(rb));
    lemma_filter_push(m.segments.push(ra), rb, seg_lacks_id(ida));
    lemma_filter_push(m.segments, ra, seg_lacks_id(ida));
    assert(m.segments =~= Seq::<SegmentModel>::empty());
    reveal(Seq::filter);
    assert(m.segments.filter(seg_lacks_id(ida)) =~= Seq::<SegmentModel>::empty());
}

/// Removing one URL's segments and cascading to the parent tables keeps the
/// store well-formed.
proof fn lemma_remove_url_preserves_wf(m: StoreModel, u: Seq<char>)
    requires
        store_wf(m),
    ensures
        store_wf(remove_url_model(m, u)),
{
    let m2 = remove_url_model(m, u);
    let keep_pred = seg_lacks_url(u);
    let url_pred = str_differs(u);
    let path_pred = cascade_keeps(segments_without_url(m.segments, u), segments_for(m.segments, u));
    lemma_filter_sub(m.segments, keep_pred);
    lemma_filter_pairwise(m.segments, keep_pred, |a: SegmentModel, b: SegmentModel| a.id != b.id);
    lemma_filter_pairwise(m.urls, url_pred, |a: Seq<char>, b: Seq<char>| a != b);
    lemma_filter_pairwise(m.paths, path_pred, |a: Seq<char>, b: Seq<char>| a != b);
    assert forall|k: int| 0 <= k < m2.segments.len() implies 0 < (
    #[trigger] m2.segments[k]).id < m2.next_id && m2.urls.contains(m2.segments[k].url)
        && m2.paths.contains(m2.segments[k].file_path) by {
        let s = m2.segments[k];
        assert(m2.segments.contains(s));
        assert(m.segments.contains(s));
        let j = choose|j: int| 0 <= j < m.segments.len() && m.segments[j] == s;
        assert(0 < s.id < m.next_id);
        m.segments.lemma_filter_pred(keep_pred, k);
        assert(keep_pred(s));
        assert(m.urls.contains(s.url));
        let ui = choose|ui: int| 0 <= ui < m.urls.len() && m.urls[ui] == s.url;
        assert(url_pred(m.urls[ui]));
        m.urls.lemma_filter_contains(url_pred, ui);
        assert(m2.urls.contains(s.url));
        assert(m.paths.contains(s.file_path));
        let pi = choose|pi: int| 0 <= pi < m.paths.len() && m.paths[pi] == s.file_path;
        assert(references_path(m2.segments, s.file_path)) by {
            assert(0 <= k < m2.segments.len() && m2.segments[k].file_path == s.file_path);
        }
        assert(path_pred(m.paths[pi]));
        m.paths.lemma_filter_contains(path_pred, pi);
        assert(m2.paths.contains(s.file_path));
    }
    assert forall|i: int, j: int|
        #![trigger m2.segments[i].id, m2.segments[j].id]
        0 <= i < j < m2.segments.len() implies m2.segments[i].id != m2.segments[j].id by {
        assert(m.segments.filter(keep_pred)[i] == m2.segments[i]);
        assert(m.segments.filter(keep_pred)[j] == m2.segments[j]);
    }
    assert forall|i: int, j: int|
        #![trigger m2.urls[i], m2.urls[j]]
        0 <= i < j < m2.urls.len() implies m2.urls[i] != m2.urls[j] by {
        assert(m.urls.filter(url_pred)[i] == m2.urls[i]);
        assert(m.urls.filter(url_pred)[j] == m2.urls[j]);
    }
    assert forall|i: int, j: int|
        #![trigger m2.paths[i], m2.paths[j]]
        0 <= i < j < m2.paths.len() implies m2.paths[i] != m2.paths[j] by {
        assert(m.paths.filter(path_pred)[i] == m2.paths[i]);
        assert(m.paths.filter(path_pred)[j] == m2.paths[j]);
    }
}

} // verus!
