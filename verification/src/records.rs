//! File records and manifest maps: the structured record of a tracked
//! file, and the path-keyed map of records that staging and commits
//! carry.

use vstd::prelude::*;

verus! {

broadcast use vstd::string::group_string_axioms;

/// Represents a file record: a tracked file's relative path, the chunk
/// digests that make up its content in order, and its metadata.
#[derive(Debug, Clone)]
pub struct FileRecord {
    /// Relative path of the file from repository root
    pub path: String,
    /// List of chunk hashes that make up this file
    pub chunks: Vec<String>,
    /// Total size of the file in bytes
    pub size: u64,
    /// Modification time as Unix timestamp
    pub mtime: u64,
    /// File permissions (Unix style)
    pub permissions: u32,
    /// Whether the file is executable
    pub is_executable: bool,
}

/// The mathematical content of a file record.
pub struct RecordModel {
    pub path: Seq<char>,
    pub chunks: Seq<Seq<char>>,
    pub size: u64,
    pub mtime: u64,
    pub permissions: u32,
    pub is_executable: bool,
}

/// The model of a record.
pub open spec fn record_model(r: &FileRecord) -> RecordModel {
    RecordModel {
        path: r.path@,
        chunks: r.chunks.deep_view(),
        size: r.size,
        mtime: r.mtime,
        permissions: r.permissions,
        is_executable: r.is_executable,
    }
}

impl vstd::std_specs::cmp::PartialEqSpecImpl for FileRecord {
    open spec fn obeys_eq_spec() -> bool {
        true
    }

    open spec fn eq_spec(&self, other: &FileRecord) -> bool {
        record_model(self) == record_model(other)
    }
}

impl PartialEq for FileRecord {
    fn eq(&self, other: &FileRecord) -> (r: bool) {
        if !(self.path == other.path) {
            return false;
        }
        if self.size != other.size || self.mtime != other.mtime || self.permissions
            != other.permissions || self.is_executable != other.is_executable {
            return false;
        }
        if self.chunks.len() != other.chunks.len() {
            proof {
                assert(record_model(self).chunks.len() != record_model(other).chunks.len());
            }
            return false;
        }
        let mut i: usize = 0;
        while i < self.chunks.len()
            invariant
                0 <= i <= self.chunks@.len(),
                self.chunks@.len() == other.chunks@.len(),
                forall|j: int| 0 <= j < i ==> self.chunks@[j]@ == other.chunks@[j]@,
            decreases self.chunks@.len() - i,
        {
            if !(self.chunks[i] == other.chunks[i]) {
                proof {
                    assert(record_model(self).chunks[i as int] != record_model(
                        other).chunks[i as int]);
                }
                return false;
            }
            i += 1;
        }
        proof {
            assert(record_model(self).chunks =~= record_model(other).chunks);
            assert(record_model(self) == record_model(other));
        }
        true
    }
}

impl FileRecord {
    /// Get the total number of chunks for this file.
    pub fn chunk_count(&self) -> (r: usize)
        ensures
            r == self.chunks@.len(),
    {
        self.chunks.len()
    }

    /// Check if this is a binary file based on its extension.
    pub fn is_binary(&self) -> (r: bool)
        ensures
            r == crate::utils::is_binary_file_spec(self.path@),
    {
        crate::utils::is_binary_file(self.path.as_str())
    }

    /// Get a human-readable summary of this file record.
    pub fn summary(&self) -> (r: String)
        ensures
            r@ == self.path@ + " ("@ + crate::strutil::dec_rep(self.chunks@.len() as int)
                + " chunks, "@ + crate::utils::format_size_spec(self.size as int) + " bytes, "@
                + (if self.is_executable { "executable"@ } else { "regular"@ }) + ")"@,
    {
        let mut s = self.path.clone();
        s.append(" (");
        let n = crate::strutil::u64_to_string(self.chunks.len() as u64);
        s.append(n.as_str());
        s.append(" chunks, ");
        let sz = crate::utils::format_size(self.size);
        s.append(sz.as_str());
        s.append(" bytes, ");
        if self.is_executable {
            s.append("executable");
        } else {
            s.append("regular");
        }
        s.append(")");
        proof {
            assert(s@ =~= self.path@ + " ("@ + crate::strutil::dec_rep(self.chunks@.len() as int)
                + " chunks, "@ + crate::utils::format_size_spec(self.size as int) + " bytes, "@
                + (if self.is_executable { "executable"@ } else { "regular"@ }) + ")"@);
        }
        s
    }

    /// An equal copy of the record.
    pub fn duplicate(&self) -> (r: FileRecord)
        ensures
            record_model(&r) == record_model(self),
            r.path@ == self.path@,
    {
        let mut chunks: Vec<String> = Vec::new();
        let mut i: usize = 0;
        while i < self.chunks.len()
            invariant
                0 <= i <= self.chunks@.len(),
                chunks@.len() == i,
                forall|j: int| 0 <= j < i ==> chunks@[j]@ == self.chunks@[j]@,
            decreases self.chunks@.len() - i,
        {
            chunks.push(self.chunks[i].clone());
            i += 1;
        }
        let r = FileRecord {
            path: self.path.clone(),
            chunks,
            size: self.size,
            mtime: self.mtime,
            permissions: self.permissions,
            is_executable: self.is_executable,
        };
        proof {
            assert(r.chunks.deep_view() =~= self.chunks.deep_view());
        }
        r
    }
}

/// Lexicographic order on paths, by character, from position `i`.
pub open spec fn path_lt_from(a: Seq<char>, b: Seq<char>, i: int) -> bool
    decreases a.len() - i,
{
    if i < 0 || i >= b.len() {
        false
    } else if i >= a.len() {
        true
    } else if a[i] != b[i] {
        (a[i] as u32) < (b[i] as u32)
    } else {
        path_lt_from(a, b, i + 1)
    }
}

/// Strict lexicographic order on paths.
pub open spec fn path_lt(a: Seq<char>, b: Seq<char>) -> bool {
    path_lt_from(a, b, 0)
}

proof fn lemma_path_lt_from_irrefl(a: Seq<char>, i: int)
    ensures
        !path_lt_from(a, a, i),
    decreases a.len() - i,
{
    if 0 <= i < a.len() {
        lemma_path_lt_from_irrefl(a, i + 1);
    }
}

proof fn lemma_path_lt_from_asym(a: Seq<char>, b: Seq<char>, i: int)
    requires
        path_lt_from(a, b, i),
    ensures
        !path_lt_from(b, a, i),
    decreases a.len() - i,
{
    if 0 <= i < b.len() && i < a.len() && a[i] == b[i] {
        lemma_path_lt_from_asym(a, b, i + 1);
    }
}

/// Strict path order is asymmetric.
pub proof fn lemma_path_lt_asym(a: Seq<char>, b: Seq<char>)
    requires
        path_lt(a, b),
    ensures
        !path_lt(b, a),
{
    lemma_path_lt_from_asym(a, b, 0);
}

proof fn lemma_path_lt_from_total(a: Seq<char>, b: Seq<char>, i: int)
    requires
        0 <= i <= a.len(),
        0 <= i <= b.len(),
        forall|j: int| 0 <= j < i ==> a[j] == b[j],
    ensures
        a == b || path_lt_from(a, b, i) || path_lt_from(b, a, i),
    decreases a.len() - i,
{
    if i >= a.len() && i >= b.len() {
        assert(a =~= b);
    } else if i >= a.len() {
        assert(path_lt_from(a, b, i));
    } else if i >= b.len() {
        assert(path_lt_from(b, a, i));
    } else if a[i] != b[i] {
        vstd::utf8::char_u32_cast(a[i], a[i] as u32);
        vstd::utf8::char_u32_cast(b[i], b[i] as u32);
        assert((a[i] as u32) != (b[i] as u32));
    } else {
        lemma_path_lt_from_total(a, b, i + 1);
    }
}

/// Any two distinct paths are strictly ordered one way.
pub proof fn lemma_path_lt_total(a: Seq<char>, b: Seq<char>)
    ensures
        a == b || path_lt(a, b) || path_lt(b, a),
{
    lemma_path_lt_from_total(a, b, 0);
}

proof fn lemma_path_lt_from_trans(a: Seq<char>, b: Seq<char>, c: Seq<char>, i: int)
    requires
        path_lt_from(a, b, i),
        path_lt_from(b, c, i),
    ensures
        path_lt_from(a, c, i),
    decreases c.len() - i,
{
    if 0 <= i < c.len() && i < b.len() {
        if i >= a.len() {
        } else if a[i] == b[i] && b[i] == c[i] {
            lemma_path_lt_from_trans(a, b, c, i + 1);
        }
    }
}

/// Strict path order is transitive.
pub proof fn lemma_path_lt_trans(a: Seq<char>, b: Seq<char>, c: Seq<char>)
    requires
        path_lt(a, b),
        path_lt(b, c),
    ensures
        path_lt(a, c),
{
    lemma_path_lt_from_trans(a, b, c, 0);
}

/// In a strictly sorted sequence, a path occurs at most once.
pub proof fn lemma_unique_witness(e: Seq<FileRecord>, w1: int, w2: int)
    requires
        entries_sorted(e),
        0 <= w1 < e.len(),
        0 <= w2 < e.len(),
        e[w1].path@ == e[w2].path@,
    ensures
        w1 == w2,
{
    if w1 < w2 {
        assert(path_lt(e[w1].path@, e[w2].path@));
        lemma_path_lt_from_irrefl(e[w1].path@, 0);
    } else if w2 < w1 {
        assert(path_lt(e[w2].path@, e[w1].path@));
        lemma_path_lt_from_irrefl(e[w1].path@, 0);
    }
}

/// The entry at a position is what lookup of its path finds.
pub proof fn lemma_entries_index_at(e: Seq<FileRecord>, w: int)
    requires
        entries_sorted(e),
        0 <= w < e.len(),
    ensures
        entries_contain(e, e[w].path@),
        entries_index(e, e[w].path@) == record_model(&e[w]),
{
    assert(entries_contain(e, e[w].path@)) by {
        assert(0 <= w < e.len() && e[w].path@ == e[w].path@);
    }
    let w2 = choose|i: int| 0 <= i < e.len() && (#[trigger] e[i].path@) == e[w].path@;
    lemma_unique_witness(e, w2, w);
}

fn path_lt_from_exec(a: &str, b: &str, i: usize) -> (r: bool)
    requires
        i <= a@.len(),
        i <= b@.len(),
    ensures
        r == path_lt_from(a@, b@, i as int),
    decreases a@.len() - i,
{
    let alen = a.unicode_len();
    let blen = b.unicode_len();
    if i >= blen {
        false
    } else if i >= alen {
        true
    } else {
        let ca = a.get_char(i);
        let cb = b.get_char(i);
        if ca != cb {
            (ca as u32) < (cb as u32)
        } else {
            path_lt_from_exec(a, b, i + 1)
        }
    }
}

/// Compare two paths in the canonical order.
pub fn path_lt_exec(a: &str, b: &str) -> (r: bool)
    ensures
        r == path_lt(a@, b@),
{
    path_lt_from_exec(a, b, 0)
}

/// A map from paths to file records, kept sorted by path so that every
/// map has exactly one representation.
#[derive(Debug, Clone)]
pub struct ManifestMap {
    pub entries: Vec<FileRecord>,
}

/// Whether a sequence of records is strictly sorted by path.
pub open spec fn entries_sorted(s: Seq<FileRecord>) -> bool {
    forall|i: int, j: int| 0 <= i < j < s.len() ==> path_lt(#[trigger] s[i].path@,
        #[trigger] s[j].path@)
}

/// Whether some entry carries the given path.
pub open spec fn entries_contain(s: Seq<FileRecord>, path: Seq<char>) -> bool {
    exists|i: int| 0 <= i < s.len() && (#[trigger] s[i].path@) == path
}

/// The model of the entry carrying the given path.
pub open spec fn entries_index(s: Seq<FileRecord>, path: Seq<char>) -> RecordModel {
    record_model(&s[choose|i: int| 0 <= i < s.len() && (#[trigger] s[i].path@) == path])
}

impl ManifestMap {
    /// Well-formed: entries strictly sorted by path, so paths are
    /// unique and the representation is canonical.
    pub open spec fn wf(&self) -> bool {
        entries_sorted(self.entries@)
    }

    /// The map this manifest represents.
    pub open spec fn view(&self) -> Map<Seq<char>, RecordModel> {
        Map::new(
            |p: Seq<char>| entries_contain(self.entries@, p),
            |p: Seq<char>| entries_index(self.entries@, p),
        )
    }

    /// Create an empty manifest map.
    pub fn new() -> (r: ManifestMap)
        ensures
            r.wf(),
            r@ == Map::<Seq<char>, RecordModel>::empty(),
            r.entries@.len() == 0,
    {
        let r = ManifestMap { entries: Vec::new() };
        proof {
            assert(r@ =~= Map::<Seq<char>, RecordModel>::empty());
        }
        r
    }

    /// The number of tracked paths.
    pub fn len(&self) -> (r: usize)
        ensures
            r == self.entries@.len(),
    {
        self.entries.len()
    }

    /// Whether no path is tracked.
    pub fn is_empty(&self) -> (r: bool)
        requires
            self.wf(),
        ensures
            r == (self@ =~= Map::<Seq<char>, RecordModel>::empty()),
            r == (self.entries@.len() == 0),
    {
        let r = self.entries.len() == 0;
        proof {
            if r {
                assert(self@ =~= Map::<Seq<char>, RecordModel>::empty());
            } else {
                let p = self.entries@[0].path@;
                assert(entries_contain(self.entries@, p));
                assert(self@.dom().contains(p));
            }
        }
        r
    }

    /// Look up the record stored for a path.
    pub fn get(&self, path: &str) -> (r: Option<&FileRecord>)
        requires
            self.wf(),
        ensures
            match r {
                Some(rec) => self@.dom().contains(path@) && record_model(rec) == self@[path@]
                    && rec.path@ == path@,
                None => !self@.dom().contains(path@),
            },
    {
        let mut i: usize = 0;
        while i < self.entries.len()
            invariant
                self.wf(),
                0 <= i <= self.entries@.len(),
                forall|j: int| 0 <= j < i ==> (#[trigger] self.entries@[j].path@) != path@,
            decreases self.entries@.len() - i,
        {
            if crate::strutil::str_eq(self.entries[i].path.as_str(), path) {
                proof {
                    assert(entries_contain(self.entries@, path@)) by {
                        assert(self.entries@[i as int].path@ == path@);
                    }
                    let w = choose|k: int| 0 <= k < self.entries@.len() && (#[trigger] self.entries@[
                        k].path@) == path@;
                    lemma_unique_witness(self.entries@, w, i as int);
                }
                return Some(&self.entries[i]);
            }
            i += 1;
        }
        proof {
            assert(!entries_contain(self.entries@, path@));
        }
        None
    }

    /// Insert a record, replacing any record already stored for its
    /// path.
    pub fn insert(&mut self, record: FileRecord)
        requires
            old(self).wf(),
        ensures
            final(self).wf(),
            final(self)@ == old(self)@.insert(record.path@, record_model(&record)),
            final(self).entries@.len() <= old(self).entries@.len() + 1,
    {
        let ghost oldmap = self@;
        let mut i: usize = 0;
        while i < self.entries.len() && path_lt_exec(self.entries[i].path.as_str(),
            record.path.as_str())
            invariant
                self.wf(),
                self@ == oldmap,
                0 <= i <= self.entries@.len(),
                forall|j: int| 0 <= j < i ==> path_lt((#[trigger] self.entries@[j].path@),
                    record.path@),
            decreases self.entries@.len() - i,
        {
            i += 1;
        }
        let ghost olde = self.entries@;
        if i < self.entries.len() && crate::strutil::str_eq(self.entries[i].path.as_str(),
            record.path.as_str()) {
            // replace in place: the path is already present
            self.entries.set(i, record);
            proof {
                let ne = self.entries@;
                let p = record.path@;
                assert forall|q: Seq<char>| true implies #[trigger] entries_contain(ne, q)
                    == (entries_contain(olde, q) || q == p) by {
                    if entries_contain(olde, q) || q == p {
                        if q == p {
                            assert(ne[i as int].path@ == q);
                        } else {
                            let w = choose|k: int| 0 <= k < olde.len() && (#[trigger] olde[
                                k].path@) == q;
                            assert(w != i as int);
                            assert(ne[w].path@ == q);
                        }
                    } else {
                        if entries_contain(ne, q) {
                            let w = choose|k: int| 0 <= k < ne.len() && (#[trigger] ne[k].path@)
                                == q;
                            assert(w != i as int);
                            assert(olde[w].path@ == q);
                        }
                    }
                }
                assert forall|i2: int, j2: int| 0 <= i2 < j2 < ne.len() implies path_lt(
                    #[trigger] ne[i2].path@, #[trigger] ne[j2].path@) by {
                    assert(olde[i as int].path@ == ne[i as int].path@);
                }
                assert(self@ =~= oldmap.insert(record.path@, record_model(&record))) by {
                    assert forall|q: Seq<char>| entries_contain(ne, q) && q != record.path@
                        implies entries_index(ne, q) == entries_index(olde, q) by {
                        let w = choose|k: int| 0 <= k < ne.len() && (#[trigger] ne[k].path@) == q;
                        assert(w != i as int);
                        assert(olde[w].path@ == q);
                        assert(entries_contain(olde, q));
                        let w2 = choose|k: int| 0 <= k < olde.len() && (#[trigger] olde[k].path@)
                            == q;
                        lemma_unique_witness(olde, w2, w);
                        assert(ne[w] == olde[w]);
                    }
                    assert(entries_index(ne, record.path@) == record_model(&record)) by {
                        assert(entries_contain(ne, record.path@)) by {
                            assert(ne[i as int].path@ == record.path@);
                        }
                        let w = choose|k: int| 0 <= k < ne.len() && (#[trigger] ne[k].path@)
                            == record.path@;
                        lemma_unique_witness(ne, w, i as int);
                    }
                }
            }
        } else {
            // insert at the sorted position
            proof {
                if i < self.entries@.len() {
                    lemma_path_lt_total(self.entries@[i as int].path@, record.path@);
                }
            }
            self.entries.insert(i, record);
            proof {
                let ne = self.entries@;
                let p = record.path@;
                assert(ne[i as int] == record);
                assert forall|k: int| 0 <= k < olde.len() implies #[trigger] olde[k] == (if k
                    < i as int {
                    ne[k]
                } else {
                    ne[k + 1]
                }) by {}
                assert forall|i2: int, j2: int| 0 <= i2 < j2 < ne.len() implies path_lt(
                    #[trigger] ne[i2].path@, #[trigger] ne[j2].path@) by {
                    let ii = i as int;
                    if i2 == ii {
                        // the new record precedes what follows it
                        assert(path_lt(record.path@, olde[ii].path@));
                        if j2 - 1 > ii {
                            assert(path_lt(olde[ii].path@, olde[j2 - 1].path@));
                            lemma_path_lt_trans(record.path@, olde[ii].path@, olde[j2 - 1].path@);
                        }
                        assert(ne[j2] == olde[j2 - 1]);
                    } else if j2 == ii {
                        assert(ne[i2] == olde[i2]);
                        assert(path_lt(olde[i2].path@, record.path@));
                    } else if i2 < ii && j2 > ii {
                        assert(ne[i2] == olde[i2]);
                        assert(ne[j2] == olde[j2 - 1]);
                        if j2 - 1 == i2 {
                            assert(false);
                        } else {
                            assert(path_lt(olde[i2].path@, olde[j2 - 1].path@));
                        }
                    } else if j2 < ii {
                        assert(ne[i2] == olde[i2]);
                        assert(ne[j2] == olde[j2]);
                        assert(path_lt(olde[i2].path@, olde[j2].path@));
                    } else {
                        assert(ne[i2] == olde[i2 - 1]);
                        assert(ne[j2] == olde[j2 - 1]);
                        assert(path_lt(olde[i2 - 1].path@, olde[j2 - 1].path@));
                    }
                }
                assert(self@ =~= oldmap.insert(record.path@, record_model(&record))) by {
                    assert forall|q: Seq<char>| true implies #[trigger] entries_contain(ne, q)
                        == (entries_contain(olde, q) || q == p) by {
                        if q == p {
                            assert(ne[i as int].path@ == q);
                        } else if entries_contain(olde, q) {
                            let w = choose|k: int| 0 <= k < olde.len() && (#[trigger] olde[
                                k].path@) == q;
                            if w < i as int {
                                assert(ne[w].path@ == q);
                            } else {
                                assert(ne[w + 1].path@ == q);
                            }
                        } else if entries_contain(ne, q) {
                            let w = choose|k: int| 0 <= k < ne.len() && (#[trigger] ne[k].path@)
                                == q;
                            assert(w != i as int);
                            if w < i as int {
                                assert(olde[w].path@ == q);
                            } else {
                                assert(olde[w - 1].path@ == q);
                            }
                        }
                    }
                    assert forall|q: Seq<char>| entries_contain(ne, q) implies entries_index(ne, q)
                        == (if q == p {
                        record_model(&record)
                    } else {
                        entries_index(olde, q)
                    }) by {
                        let w = choose|k: int| 0 <= k < ne.len() && (#[trigger] ne[k].path@) == q;
                        if q == p {
                            lemma_unique_witness(ne, w, i as int);
                            assert(entries_index(ne, q) == record_model(&record));
                        } else {
                            assert(w != i as int);
                            let w0 = if w < i as int { w } else { w - 1 };
                            assert(olde[w0].path@ == q);
                            assert(entries_contain(olde, q));
                            let w2 = choose|k: int| 0 <= k < olde.len() && (#[trigger] olde[
                                k].path@) == q;
                            lemma_unique_witness(olde, w2, w0);
                            assert(ne[w] == olde[w0]);
                        }
                    }
                }
            }
        }
    }
}

/// Two well-formed manifest maps that represent the same map hold the
/// same entries in the same order: the representation is canonical.
pub proof fn lemma_manifest_canonical(a: &ManifestMap, b: &ManifestMap)
    requires
        a.wf(),
        b.wf(),
        a@ == b@,
    ensures
        a.entries@.len() == b.entries@.len(),
        forall|i: int| 0 <= i < a.entries@.len() ==> record_model(&a.entries@[i]) == record_model(
            &b.entries@[i]),
{
    assert forall|q: Seq<char>| entries_contain(a.entries@, q) == entries_contain(
        b.entries@, q) by {
        assert(a@.dom().contains(q) == entries_contain(a.entries@, q));
        assert(b@.dom().contains(q) == entries_contain(b.entries@, q));
    }
    assert forall|q: Seq<char>| entries_contain(a.entries@, q) implies entries_index(a.entries@, q)
        == entries_index(b.entries@, q) by {
        assert(a@[q] == entries_index(a.entries@, q));
        assert(b@[q] == entries_index(b.entries@, q));
    }
    lemma_entries_canonical(a.entries@, b.entries@);
}

proof fn lemma_entries_canonical(ea: Seq<FileRecord>, eb: Seq<FileRecord>)
    requires
        entries_sorted(ea),
        entries_sorted(eb),
        forall|q: Seq<char>| entries_contain(ea, q) == entries_contain(eb, q),
        forall|q: Seq<char>| entries_contain(ea, q) ==> entries_index(ea, q) == entries_index(
            eb, q),
    ensures
        ea.len() == eb.len(),
        forall|i: int| 0 <= i < ea.len() ==> record_model(&ea[i]) == record_model(&eb[i]),
    decreases ea.len(),
{
    if ea.len() == 0 {
        if eb.len() > 0 {
            assert(entries_contain(eb, eb[0].path@));
            assert(entries_contain(ea, eb[0].path@));
            assert(false);
        }
    } else if eb.len() == 0 {
        assert(entries_contain(ea, ea[0].path@));
        assert(entries_contain(eb, ea[0].path@));
        assert(false);
    } else {
        let pa = ea[0].path@;
        let pb = eb[0].path@;
        // the first path of each is the least of the shared path set
        if pa != pb {
            assert(entries_contain(ea, pa));
            assert(entries_contain(eb, pa));
            let wa = choose|k: int| 0 <= k < eb.len() && (#[trigger] eb[k].path@) == pa;
            assert(wa > 0);
            assert(path_lt(pb, pa));
            assert(entries_contain(eb, pb));
            assert(entries_contain(ea, pb));
            let wb = choose|k: int| 0 <= k < ea.len() && (#[trigger] ea[k].path@) == pb;
            assert(wb > 0);
            assert(path_lt(pa, pb));
            lemma_path_lt_asym(pa, pb);
            assert(false);
        }
        // heads carry the same model
        assert(entries_contain(ea, pa)) by {
            assert(ea[0].path@ == pa);
        }
        assert(entries_index(ea, pa) == record_model(&ea[0])) by {
            lemma_entries_index_at(ea, 0);
        }
        assert(entries_contain(eb, pb)) by {
            assert(eb[0].path@ == pb);
        }
        assert(entries_index(eb, pb) == record_model(&eb[0])) by {
            lemma_entries_index_at(eb, 0);
        }
        // the tails represent the same map
        let ta = ea.skip(1);
        let tb = eb.skip(1);
        assert forall|q: Seq<char>| entries_contain(ta, q) == entries_contain(tb, q)
            && (entries_contain(ta, q) ==> entries_index(ta, q) == entries_index(tb, q)) by {
            lemma_tail_transfer(ea, eb, q);
        }
        lemma_entries_canonical(ta, tb);
        assert forall|i: int| 0 <= i < ea.len() implies record_model(&ea[i]) == record_model(
            &eb[i]) by {
            if i > 0 {
                assert(record_model(&ta[i - 1]) == record_model(&tb[i - 1]));
            }
        }
    }
}

proof fn lemma_tail_contain(e: Seq<FileRecord>, q: Seq<char>)
    requires
        entries_sorted(e),
        e.len() > 0,
    ensures
        entries_contain(e.skip(1), q) == (entries_contain(e, q) && q != e[0].path@),
        entries_contain(e.skip(1), q) ==> entries_index(e.skip(1), q) == entries_index(e, q),
{
    let t = e.skip(1);
    if entries_contain(t, q) {
        let w = choose|k: int| 0 <= k < t.len() && (#[trigger] t[k].path@) == q;
        assert(e[w + 1].path@ == q);
        assert(entries_contain(e, q));
        if q == e[0].path@ {
            assert(path_lt(e[0].path@, e[w + 1].path@));
            lemma_path_lt_from_irrefl(q, 0);
        }
        // the witness in the whole sequence is the same entry
        let w2 = choose|k: int| 0 <= k < e.len() && (#[trigger] e[k].path@) == q;
        lemma_unique_witness(e, w2, w + 1);
        // and the witness inside the tail is the same entry too
        let w3 = choose|k: int| 0 <= k < t.len() && (#[trigger] t[k].path@) == q;
        assert(entries_sorted(t)) by {
            assert forall|i2: int, j2: int| 0 <= i2 < j2 < t.len() implies path_lt(
                #[trigger] t[i2].path@, #[trigger] t[j2].path@) by {
                assert(path_lt(e[i2 + 1].path@, e[j2 + 1].path@));
            }
        }
        lemma_unique_witness(t, w3, w);
        assert(t[w3] == e[w3 + 1]);
        lemma_entries_index_at(t, w);
        lemma_entries_index_at(e, w + 1);
        assert(entries_index(t, q) == entries_index(e, q));
    } else {
        if entries_contain(e, q) && q != e[0].path@ {
            let w = choose|k: int| 0 <= k < e.len() && (#[trigger] e[k].path@) == q;
            assert(w > 0);
            assert(t[w - 1].path@ == q);
            assert(false);
        }
    }
}

proof fn lemma_tail_transfer(ea: Seq<FileRecord>, eb: Seq<FileRecord>, q: Seq<char>)
    requires
        entries_sorted(ea),
        entries_sorted(eb),
        ea.len() > 0,
        eb.len() > 0,
        ea[0].path@ == eb[0].path@,
        forall|p: Seq<char>| entries_contain(ea, p) == entries_contain(eb, p),
        forall|p: Seq<char>| entries_contain(ea, p) ==> entries_index(ea, p) == entries_index(
            eb, p),
    ensures
        entries_contain(ea.skip(1), q) == entries_contain(eb.skip(1), q),
        entries_contain(ea.skip(1), q) ==> entries_index(ea.skip(1), q) == entries_index(
            eb.skip(1), q),
{
    lemma_tail_contain(ea, q);
    lemma_tail_contain(eb, q);
}

} // verus!
