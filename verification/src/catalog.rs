//! The catalog's data model: one metadata record per file, keyed by its
//! canonical path, and the in-memory catalog mapping paths to records.
use vstd::prelude::*;

verus! {

/// The closed set of file categories, derived from the file extension.
#[derive(Clone, Copy, Debug, PartialEq, Eq, Structural)]
pub enum Category {
    Image,
    Video,
    Audio,
    Document,
    Spreadsheet,
    Presentation,
    Application,
    Archive,
    Other,
}

/// Enrichment produced by the external analysis collaborator; opaque to the
/// core except for its shape.  The confidence is kept in hundredths, so 75
/// stands for a confidence of 0.75.
#[derive(Clone, Debug, PartialEq, Eq)]
pub struct AiAnalysis {
    pub file_purpose: String,
    pub importance_level: String,
    pub potential_category: String,
    pub deletion_recommendation: bool,
    pub confidence_centi: u8,
}

/// Mathematical model of an [`AiAnalysis`] value.
pub ghost struct AiView {
    pub file_purpose: Seq<char>,
    pub importance_level: Seq<char>,
    pub potential_category: Seq<char>,
    pub deletion_recommendation: bool,
    pub confidence_centi: u8,
}

impl View for AiAnalysis {
    type V = AiView;

    open spec fn view(&self) -> AiView {
        AiView {
            file_purpose: self.file_purpose@,
            importance_level: self.importance_level@,
            potential_category: self.potential_category@,
            deletion_recommendation: self.deletion_recommendation,
            confidence_centi: self.confidence_centi,
        }
    }
}

/// One catalogued file.  Timestamps are Unix seconds; the path is the
/// record's unique identity within a catalog.
#[derive(Clone, Debug, PartialEq, Eq)]
pub struct FileMetadata {
    pub path: String,
    pub file_name: String,
    pub extension: String,
    pub size: u64,
    pub created: i64,
    pub modified: i64,
    pub category: Category,
    pub mime_type: String,
    pub importance_score: u8,
    pub last_accessed: i64,
    pub is_duplicate: bool,
    pub duplicate_of: Option<String>,
    pub ai_analysis: Option<AiAnalysis>,
}

/// Mathematical model of a [`FileMetadata`] record.
pub ghost struct MetaView {
    pub path: Seq<char>,
    pub file_name: Seq<char>,
    pub extension: Seq<char>,
    pub size: u64,
    pub created: i64,
    pub modified: i64,
    pub category: Category,
    pub mime_type: Seq<char>,
    pub importance_score: u8,
    pub last_accessed: i64,
    pub is_duplicate: bool,
    pub duplicate_of: Option<Seq<char>>,
    pub ai_analysis: Option<AiView>,
}

impl View for FileMetadata {
    type V = MetaView;

    open spec fn view(&self) -> MetaView {
        MetaView {
            path: self.path@,
            file_name: self.file_name@,
            extension: self.extension@,
            size: self.size,
            created: self.created,
            modified: self.modified,
            category: self.category,
            mime_type: self.mime_type@,
            importance_score: self.importance_score,
            last_accessed: self.last_accessed,
            is_duplicate: self.is_duplicate,
            duplicate_of: match self.duplicate_of {
                Some(ref p) => Some(p@),
                None => None,
            },
            ai_analysis: match self.ai_analysis {
                Some(ref a) => Some(a@),
                None => None,
            },
        }
    }
}

impl MetaView {
    /// A record is well formed when its score lies in [0, 100], as does the
    /// confidence of any enrichment, and a duplicate reference implies the
    /// duplicate flag.
    pub open spec fn wf(self) -> bool {
        &&& self.importance_score <= 100
        &&& self.duplicate_of is Some ==> self.is_duplicate
        &&& match self.ai_analysis {
            Some(a) => a.confidence_centi <= 100,
            None => true,
        }
    }
}

impl FileMetadata {
    /// A field-for-field copy, with the same model as the record it copies.
    pub fn duplicate(&self) -> (r: FileMetadata)
        ensures
            r@ == self@,
    {
        FileMetadata {
            path: self.path.clone(),
            file_name: self.file_name.clone(),
            extension: self.extension.clone(),
            size: self.size,
            created: self.created,
            modified: self.modified,
            category: self.category,
            mime_type: self.mime_type.clone(),
            importance_score: self.importance_score,
            last_accessed: self.last_accessed,
            is_duplicate: self.is_duplicate,
            duplicate_of: match self.duplicate_of {
                Some(ref p) => Some(p.clone()),
                None => None,
            },
            ai_analysis: match self.ai_analysis {
                Some(ref a) => Some(AiAnalysis {
                    file_purpose: a.file_purpose.clone(),
                    importance_level: a.importance_level.clone(),
                    potential_category: a.potential_category.clone(),
                    deletion_recommendation: a.deletion_recommendation,
                    confidence_centi: a.confidence_centi,
                }),
                None => None,
            },
        }
    }
}

/// The paths of a sequence of records.
pub open spec fn paths_of(entries: Seq<MetaView>) -> Seq<Seq<char>> {
    entries.map_values(|m: MetaView| m.path)
}

/// The records' paths are pairwise distinct.
pub open spec fn distinct_paths(entries: Seq<MetaView>) -> bool {
    forall|i: int, j: int|
        0 <= i < j < entries.len() ==> entries[i].path != entries[j].path
}

/// The path-keyed mapping a sequence of records denotes; a later record for
/// the same path supersedes an earlier one.
pub open spec fn map_of(entries: Seq<MetaView>) -> Map<Seq<char>, MetaView>
    decreases entries.len(),
{
    if entries.len() == 0 {
        Map::empty()
    } else {
        map_of(entries.drop_last()).insert(entries.last().path, entries.last())
    }
}

/// Some record in `entries` has path `p`.
pub open spec fn has_path(entries: Seq<MetaView>, p: Seq<char>) -> bool {
    exists|i: int| 0 <= i < entries.len() && entries[i].path == p
}

pub proof fn lemma_map_of_domain(entries: Seq<MetaView>)
    ensures
        forall|p: Seq<char>| #[trigger] map_of(entries).contains_key(p) <==> has_path(entries, p),
    decreases entries.len(),
{
    if entries.len() > 0 {
        lemma_map_of_domain(entries.drop_last());
        assert forall|p: Seq<char>| #[trigger] map_of(entries).contains_key(p) implies has_path(
            entries,
            p,
        ) by {
            if p == entries.last().path {
                assert(entries[entries.len() - 1].path == p);
            } else {
                assert(map_of(entries.drop_last()).contains_key(p));
                let i = choose|i: int|
                    0 <= i < entries.drop_last().len() && entries.drop_last()[i].path == p;
                assert(entries[i].path == p);
            }
        }
        assert forall|p: Seq<char>| has_path(entries, p) implies #[trigger] map_of(
            entries,
        ).contains_key(p) by {
            assert(map_of(entries) == map_of(entries.drop_last()).insert(
                entries.last().path,
                entries.last(),
            ));
            let i = choose|i: int| 0 <= i < entries.len() && entries[i].path == p;
            if i < entries.len() - 1 {
                assert(entries.drop_last()[i].path == p);
                assert(has_path(entries.drop_last(), p));
                assert(map_of(entries.drop_last()).contains_key(p));
            } else {
                assert(entries.last().path == p);
            }
        }
    }
}

/// With pairwise distinct paths, the mapping holds exactly the records,
/// each under its own path.
pub proof fn lemma_map_of_distinct(entries: Seq<MetaView>)
    requires
        distinct_paths(entries),
    ensures
        forall|i: int|
            0 <= i < entries.len() ==> map_of(entries).contains_key(#[trigger] entries[i].path)
                && map_of(entries)[entries[i].path] == entries[i],
    decreases entries.len(),
{
    if entries.len() > 0 {
        assert(distinct_paths(entries.drop_last()));
        lemma_map_of_distinct(entries.drop_last());
        assert forall|i: int| 0 <= i < entries.len() implies map_of(entries).contains_key(
            #[trigger] entries[i].path,
        ) && map_of(entries)[entries[i].path] == entries[i] by {
            if i < entries.len() - 1 {
                assert(entries.drop_last()[i] == entries[i]);
                assert(entries[i].path != entries.last().path);
            }
        }
    }
}

/// Replacing the record at `i` by one with the same path updates the mapping
/// at that path only.
pub proof fn lemma_map_of_update(entries: Seq<MetaView>, i: int, m: MetaView)
    requires
        distinct_paths(entries),
        0 <= i < entries.len(),
        entries[i].path == m.path,
    ensures
        map_of(entries.update(i, m)) == map_of(entries).insert(m.path, m),
        distinct_paths(entries.update(i, m)),
    decreases entries.len(),
{
    let updated = entries.update(i, m);
    assert forall|a: int, b: int| 0 <= a < b < updated.len() implies updated[a].path
        != updated[b].path by {
        assert(entries[a].path != entries[b].path);
    }
    if i == entries.len() - 1 {
        assert(updated.drop_last() =~= entries.drop_last());
        assert(map_of(updated) == map_of(entries.drop_last()).insert(m.path, m));
        assert(map_of(entries).insert(m.path, m) == map_of(entries.drop_last()).insert(
            entries.last().path,
            entries.last(),
        ).insert(m.path, m));
        assert(map_of(entries.drop_last()).insert(entries.last().path, entries.last()).insert(
            m.path,
            m,
        ) =~= map_of(entries.drop_last()).insert(m.path, m));
    } else {
        assert(updated.drop_last() =~= entries.drop_last().update(i, m));
        assert(distinct_paths(entries.drop_last()));
        lemma_map_of_update(entries.drop_last(), i, m);
        assert(updated.last() == entries.last());
        assert(map_of(updated) == map_of(entries.drop_last()).insert(m.path, m).insert(
            entries.last().path,
            entries.last(),
        ));
        assert(entries.last().path != m.path);
        assert(map_of(entries.drop_last()).insert(m.path, m).insert(
            entries.last().path,
            entries.last(),
        ) =~= map_of(entries.drop_last()).insert(entries.last().path, entries.last()).insert(
            m.path,
            m,
        ));
    }
}

/// The models of a sequence of records.
pub open spec fn views_of(entries: Seq<FileMetadata>) -> Seq<MetaView> {
    entries.map_values(|m: FileMetadata| m@)
}

/// The in-memory catalog: records keyed by canonical path.
pub struct Catalog {
    pub entries: Vec<FileMetadata>,
}

impl View for Catalog {
    type V = Seq<MetaView>;

    open spec fn view(&self) -> Seq<MetaView> {
        views_of(self.entries@)
    }
}

impl Catalog {
    /// The catalog's records' paths are pairwise distinct.
    pub open spec fn wf(self) -> bool {
        distinct_paths(self@)
    }

    /// The path-keyed mapping the catalog denotes.
    pub open spec fn as_map(self) -> Map<Seq<char>, MetaView> {
        map_of(self@)
    }

    pub fn new() -> (r: Catalog)
        ensures
            r@ == Seq::<MetaView>::empty(),
            r.wf(),
    {
        Catalog { entries: Vec::new() }
    }

    pub fn len(&self) -> (r: usize)
        ensures
            r == self@.len(),
    {
        self.entries.len()
    }

    /// Inserts a record, superseding any record already keyed by its path.
    pub fn insert(&mut self, m: FileMetadata)
        requires
            old(self).wf(),
        ensures
            final(self).wf(),
            final(self).as_map() == old(self).as_map().insert(m@.path, m@),
            paths_of(final(self)@) == if has_path(old(self)@, m@.path) {
                paths_of(old(self)@)
            } else {
                paths_of(old(self)@).push(m@.path)
            },
    {
        let n: usize = self.entries.len();
        let mut i: usize = 0;
        while i < n
            invariant
                self@ == old(self)@,
                distinct_paths(old(self)@),
                n == self.entries@.len(),
                i <= n,
                forall|k: int| 0 <= k < i ==> old(self)@[k].path != m@.path,
            decreases n - i,
        {
            if crate::text::str_eq(self.entries[i].path.as_str(), m.path.as_str()) {
                proof {
                    assert(old(self)@[i as int].path == m@.path);
                    assert(has_path(old(self)@, m@.path));
                    lemma_map_of_update(old(self)@, i as int, m@);
                }
                self.entries.set(i, m);
                proof {
                    assert(self@ =~= old(self)@.update(i as int, m@));
                    assert(self.as_map() == map_of(old(self)@).insert(m@.path, m@));
                    assert(paths_of(self@) =~= paths_of(old(self)@));
                }
                return ;
            }
            i = i + 1;
        }
        proof {
            assert(!has_path(self@, m@.path));
        }
        let ghost entries0 = self@;
        self.entries.push(m);
        proof {
            assert(self@ =~= entries0.push(m@));
            assert(self@.drop_last() =~= entries0);
            assert(paths_of(self@) =~= paths_of(entries0).push(m@.path));
            assert forall|a: int, b: int| 0 <= a < b < self@.len() implies self@[a].path
                != self@[b].path by {
                if b == self@.len() - 1 {
                    assert(entries0[a].path != m@.path);
                }
            }
        }
    }

    /// Looks a record up by its path.
    pub fn get(&self, path: &str) -> (r: Option<&FileMetadata>)
        requires
            self.wf(),
        ensures
            match r {
                Some(m) => self.as_map().contains_key(path@) && m@ == self.as_map()[path@],
                None => !self.as_map().contains_key(path@),
            },
    {
        proof {
            lemma_map_of_domain(self@);
            lemma_map_of_distinct(self@);
        }
        let n: usize = self.entries.len();
        let mut i: usize = 0;
        while i < n
            invariant
                self.wf(),
                n == self.entries@.len(),
                i <= n,
                forall|k: int| 0 <= k < i ==> self@[k].path != path@,
            decreases n - i,
        {
            if crate::text::str_eq(self.entries[i].path.as_str(), path) {
                proof {
                    lemma_map_of_distinct(self@);
                    assert(self@[i as int] == self.entries@[i as int]@);
                }
                return Some(&self.entries[i]);
            }
            i = i + 1;
        }
        proof {
            assert(!has_path(self@, path@));
        }
        None
    }
}

} // verus!
