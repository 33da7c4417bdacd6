//! The chunk store's verified core: fan-out paths, batch deduplication,
//! the in-memory caches, the garbage-collection plan, the integrity
//! gate on reads, and the framing of delta records.

use vstd::prelude::*;
use crate::errors::BlazeError;
use crate::digest::{digest_of, is_digest, compute_chunk_hash};
use crate::chunker::{FileChunk, chunk_eq};
use crate::records::{FileRecord, ManifestMap};
use crate::commit::CommitRecord;
use crate::codec::{decodes_to, decompress_chunk_data};
use crate::delta::apply_delta_spec;
use crate::strutil::{str_eq, push_char};

verus! {

broadcast use vstd::string::group_string_axioms;

/// The fan-out parts of a chunk's on-disk location: the subdirectory
/// named by the first two digest characters, and the file named by the
/// rest.  A digest too short for fan-out lands in subdirectory "00"
/// under its own name.
pub fn chunk_path_parts(hash: &str) -> (r: (String, String))
    ensures
        hash@.len() >= 2 ==> r.0@ == hash@.take(2) && r.1@ == hash@.skip(2),
        hash@.len() < 2 ==> r.0@ == "00"@ && r.1@ == hash@,
{
    let len = hash.unicode_len();
    if len < 2 {
        (String::from_str("00"), hash.to_owned())
    } else {
        let sub = hash.substring_char(0, 2);
        let rest = hash.substring_char(2, len);
        proof {
            assert(sub@ =~= hash@.take(2));
            assert(rest@ =~= hash@.skip(2));
        }
        (sub.to_owned(), rest.to_owned())
    }
}

/// Chunk files are stored at a path determined by the digest alone, and
/// the digest is recoverable from the path: two chunks whose digests
/// are equal share one physical file, and distinct digests never
/// collide.
pub proof fn lemma_chunk_path_injective(h1: Seq<char>, h2: Seq<char>)
    requires
        h1.len() >= 2,
        h2.len() >= 2,
        h1.take(2) == h2.take(2),
        h1.skip(2) == h2.skip(2),
    ensures
        h1 == h2,
{
    assert(h1 =~= h1.take(2) + h1.skip(2));
    assert(h2 =~= h2.take(2) + h2.skip(2));
}

/// Whether a list of strings holds this one.
pub open spec fn seq_contains_str(s: Seq<Seq<char>>, x: Seq<char>) -> bool {
    exists|i: int| 0 <= i < s.len() && s[i] == x
}

/// Whether a vector of strings holds this one.
pub fn contains_hash(v: &Vec<String>, h: &str) -> (r: bool)
    ensures
        r == seq_contains_str(v.deep_view(), h@),
{
    let mut i: usize = 0;
    while i < v.len()
        invariant
            0 <= i <= v@.len(),
            forall|j: int| 0 <= j < i ==> v.deep_view()[j] != h@,
        decreases v@.len() - i,
    {
        if str_eq(v[i].as_str(), h) {
            proof {
                assert(v.deep_view()[i as int] == h@);
            }
            return true;
        }
        proof {
            assert(v.deep_view()[i as int] == v@[i as int]@);
        }
        i += 1;
    }
    false
}

/// Whether a list of chunks holds one with this digest.
pub open spec fn hash_present(s: Seq<FileChunk>, h: Seq<char>) -> bool {
    exists|i: int| 0 <= i < s.len() && (#[trigger] s[i]).hash@ == h
}

/// Whether the list holds a chunk equal to this one.
pub open spec fn chunk_from(s: Seq<FileChunk>, c: FileChunk) -> bool {
    exists|i: int| 0 <= i < s.len() && chunk_eq(&(#[trigger] s[i]), &c)
}

/// Deduplicate a batch of chunks by digest, keeping the first chunk
/// seen for each digest: the result has pairwise distinct digests,
/// every input digest is represented, and every output chunk is one of
/// the inputs.
pub fn dedupe_chunks(chunks: &Vec<FileChunk>) -> (r: Vec<FileChunk>)
    ensures
        forall|i: int, j: int| 0 <= i < j < r@.len() ==> (#[trigger] r@[i]).hash@ != (
        #[trigger] r@[j]).hash@,
        forall|i: int| 0 <= i < chunks@.len() ==> hash_present(r@, (#[trigger] chunks@[i]).hash@),
        forall|k: int| 0 <= k < r@.len() ==> chunk_from(chunks@, #[trigger] r@[k]),
        r@.len() <= chunks@.len(),
{
    let mut out: Vec<FileChunk> = Vec::new();
    let mut i: usize = 0;
    while i < chunks.len()
        invariant
            0 <= i <= chunks@.len(),
            out@.len() <= i,
            forall|k1: int, k2: int| 0 <= k1 < k2 < out@.len() ==> (#[trigger] out@[k1]).hash@ != (
            #[trigger] out@[k2]).hash@,
            forall|j: int| 0 <= j < i ==> hash_present(out@, (#[trigger] chunks@[j]).hash@),
            forall|k: int| 0 <= k < out@.len() ==> chunk_from(chunks@, #[trigger] out@[k]),
        decreases chunks@.len() - i,
    {
        let chunk = &chunks[i];
        let mut seen = false;
        let mut k: usize = 0;
        while k < out.len()
            invariant
                0 <= k <= out@.len(),
                seen <==> exists|m: int| 0 <= m < k && (#[trigger] out@[m]).hash@ == chunks@[
                    i as int].hash@,
                chunk == chunks@[i as int],
                0 <= i < chunks@.len(),
            decreases out@.len() - k,
        {
            if str_eq(out[k].hash.as_str(), chunk.hash.as_str()) {
                proof {
                    assert(out@[k as int].hash@ == chunks@[i as int].hash@);
                }
                seen = true;
            }
            k += 1;
        }
        let ghost before = out@;
        if !seen {
            out.push(chunk.duplicate());
        }
        proof {
            if !seen {
                assert(out@.drop_last() =~= before);
                assert(chunk_eq(&out@[out@.len() - 1], &chunks@[i as int]));
            }
            assert forall|j: int| 0 <= j < i + 1 implies hash_present(out@,
                (#[trigger] chunks@[j]).hash@) by {
                if j < i {
                    let m = choose|m: int| 0 <= m < before.len() && (#[trigger] before[m]).hash@
                        == chunks@[j].hash@;
                    assert(out@[m].hash@ == chunks@[j].hash@);
                } else if seen {
                    let m = choose|m: int| 0 <= m < before.len() && (#[trigger] before[m]).hash@
                        == chunks@[i as int].hash@;
                    assert(out@[m].hash@ == chunks@[j].hash@);
                } else {
                    assert(out@[out@.len() - 1].hash@ == chunks@[j].hash@);
                }
            }
            assert forall|k: int| 0 <= k < out@.len() implies chunk_from(chunks@,
                #[trigger] out@[k]) by {
                if !seen && k == out@.len() - 1 {
                    assert(chunk_eq(&(chunks@[i as int]), &out@[k]));
                } else {
                    assert(out@[k] == before[k]);
                    assert(chunk_from(chunks@, before[k]));
                }
            }
            assert forall|k1: int, k2: int| 0 <= k1 < k2 < out@.len() implies (
            #[trigger] out@[k1]).hash@ != (#[trigger] out@[k2]).hash@ by {
                if !seen && k2 == out@.len() - 1 {
                    assert(out@[k1] == before[k1]);
                    if out@[k1].hash@ == out@[k2].hash@ {
                        assert(before[k1].hash@ == chunks@[i as int].hash@);
                    }
                } else {
                    assert(out@[k1] == before[k1] && out@[k2] == before[k2]);
                }
            }
        }
        i += 1;
    }
    out
}

/// Whether the first `j` chunk digests of a record include this one.
pub open spec fn chunk_prefix_has(r: FileRecord, j: int, h: Seq<char>) -> bool {
    exists|m: int| 0 <= m < j && (#[trigger] r.chunks.deep_view()[m]) == h
}

/// Whether a record's chunk list holds this digest.
pub open spec fn record_references(r: FileRecord, h: Seq<char>) -> bool {
    chunk_prefix_has(r, r.chunks.deep_view().len() as int, h)
}

/// Whether one of the first `i` records references this digest.
pub open spec fn manifest_prefix_has(files: Seq<FileRecord>, i: int, h: Seq<char>) -> bool {
    exists|k: int| 0 <= k < i && record_references(#[trigger] files[k], h)
}

/// Whether any record in the manifest references this digest.
pub open spec fn manifest_references(files: Seq<FileRecord>, h: Seq<char>) -> bool {
    manifest_prefix_has(files, files.len() as int, h)
}

/// Whether staging or one of the first `c` commits references this
/// digest.
pub open spec fn active_prefix(commits: Seq<CommitRecord>, staging: Seq<FileRecord>, c: int,
    h: Seq<char>) -> bool {
    manifest_references(staging, h) || exists|k: int|
        0 <= k < c && manifest_references((#[trigger] commits[k]).files.entries@, h)
}

/// Whether staging or any commit references this digest.
pub open spec fn digest_active(commits: Seq<CommitRecord>, staging: Seq<FileRecord>,
    h: Seq<char>) -> bool {
    active_prefix(commits, staging, commits.len() as int, h)
}

proof fn lemma_chunk_prefix_step(r: FileRecord, j: int, h: Seq<char>)
    requires
        0 <= j,
    ensures
        chunk_prefix_has(r, j + 1, h) == (chunk_prefix_has(r, j, h) || r.chunks.deep_view()[j]
            == h),
{
    if chunk_prefix_has(r, j + 1, h) {
        let m = choose|m: int| 0 <= m < j + 1 && (#[trigger] r.chunks.deep_view()[m]) == h;
        if m < j {
            assert(chunk_prefix_has(r, j, h));
        }
    }
    if chunk_prefix_has(r, j, h) {
        let m = choose|m: int| 0 <= m < j && (#[trigger] r.chunks.deep_view()[m]) == h;
        assert(0 <= m < j + 1 && r.chunks.deep_view()[m] == h);
    }
    if r.chunks.deep_view()[j] == h {
        assert(0 <= j < j + 1 && r.chunks.deep_view()[j] == h);
        assert(chunk_prefix_has(r, j + 1, h));
    }
}

proof fn lemma_manifest_prefix_step(files: Seq<FileRecord>, i: int, h: Seq<char>)
    requires
        0 <= i < files.len(),
    ensures
        manifest_prefix_has(files, i + 1, h) == (manifest_prefix_has(files, i, h)
            || record_references(files[i], h)),
{
    if manifest_prefix_has(files, i + 1, h) {
        let k = choose|k: int| 0 <= k < i + 1 && record_references(#[trigger] files[k], h);
        if k < i {
            assert(manifest_prefix_has(files, i, h));
        }
    }
    if manifest_prefix_has(files, i, h) {
        let k = choose|k: int| 0 <= k < i && record_references(#[trigger] files[k], h);
        assert(0 <= k < i + 1 && record_references(files[k], h));
    }
    if record_references(files[i], h) {
        assert(0 <= i < i + 1 && record_references(files[i], h));
        assert(manifest_prefix_has(files, i + 1, h));
    }
}

proof fn lemma_active_prefix_step(commits: Seq<CommitRecord>, staging: Seq<FileRecord>, c: int,
    h: Seq<char>)
    requires
        0 <= c < commits.len(),
    ensures
        active_prefix(commits, staging, c + 1, h) == (active_prefix(commits, staging, c, h)
            || manifest_references(commits[c].files.entries@, h)),
{
    if active_prefix(commits, staging, c + 1, h) && !manifest_references(staging, h) {
        let k = choose|k: int|
            0 <= k < c + 1 && manifest_references((#[trigger] commits[k]).files.entries@, h);
        if k < c {
            assert(active_prefix(commits, staging, c, h));
        }
    }
    if active_prefix(commits, staging, c, h) && !manifest_references(staging, h) {
        let k = choose|k: int|
            0 <= k < c && manifest_references((#[trigger] commits[k]).files.entries@, h);
        assert(0 <= k < c + 1 && manifest_references(commits[k].files.entries@, h));
    }
    if manifest_references(commits[c].files.entries@, h) {
        assert(0 <= c < c + 1 && manifest_references(commits[c].files.entries@, h));
        assert(active_prefix(commits, staging, c + 1, h));
    }
}

/// The collector's invariant: the output holds exactly the base
/// digests plus those referenced by the first `j` chunks of a record.
spec fn collected_chunks(out: Seq<Seq<char>>, mid: Seq<Seq<char>>, r: FileRecord, j: int) -> bool {
    forall|h: Seq<char>| seq_contains_str(out, h) == (seq_contains_str(mid, h)
        || chunk_prefix_has(r, j, h))
}

/// The collector's invariant: the output holds exactly the base
/// digests plus those referenced by the first `i` records.
spec fn collected_records(out: Seq<Seq<char>>, base: Seq<Seq<char>>, files: Seq<FileRecord>,
    i: int) -> bool {
    forall|h: Seq<char>| seq_contains_str(out, h) == (seq_contains_str(base, h)
        || manifest_prefix_has(files, i, h))
}

/// The output holds exactly what staging and the first `c` commits
/// reference.
spec fn collected_commits(out: Seq<Seq<char>>, commits: Seq<CommitRecord>,
    staging: Seq<FileRecord>, c: int) -> bool {
    forall|h: Seq<char>| seq_contains_str(out, h) == active_prefix(commits, staging, c, h)
}

/// Extend an accumulator with every digest a manifest references, once
/// each.
fn collect_refs(acc: Vec<String>, files: &Vec<FileRecord>) -> (r: Vec<String>)
    ensures
        forall|h: Seq<char>| seq_contains_str(r.deep_view(), h) == (seq_contains_str(
            acc.deep_view(), h) || manifest_references(files@, h)),
{
    let mut out = acc;
    let ghost base = out.deep_view();
    let mut i: usize = 0;
    while i < files.len()
        invariant
            0 <= i <= files@.len(),
            collected_records(out.deep_view(), base, files@, i as int),
        decreases files@.len() - i,
    {
        let ghost mid = out.deep_view();
        let record = &files[i];
        let mut j: usize = 0;
        proof {
            assert(record.chunks@.len() == record.chunks.deep_view().len());
        }
        while j < record.chunks.len()
            invariant
                0 <= j <= record.chunks@.len(),
                record.chunks@.len() == record.chunks.deep_view().len(),
                record == files@[i as int],
                0 <= i < files@.len(),
                collected_chunks(out.deep_view(), mid, *record, j as int),
            decreases record.chunks@.len() - j,
        {
            let ghost before = out.deep_view();
            let chunk = &record.chunks[j];
            proof {
                assert(record.chunks.deep_view()[j as int] == record.chunks@[j as int]@);
            }
            if !contains_hash(&out, chunk.as_str()) {
                out.push(chunk.clone());
                proof {
                    assert(out.deep_view().drop_last() =~= before);
                    assert(out.deep_view()[out.deep_view().len() - 1] == chunk@);
                    assert forall|h: Seq<char>| seq_contains_str(out.deep_view(), h) == (
                    seq_contains_str(before, h) || h == chunk@) by {
                        if seq_contains_str(out.deep_view(), h) {
                            let w = choose|k: int| 0 <= k < out.deep_view().len()
                                && out.deep_view()[k] == h;
                            if w < before.len() {
                                assert(before[w] == h);
                            }
                        }
                        if seq_contains_str(before, h) {
                            let w = choose|k: int| 0 <= k < before.len() && before[k] == h;
                            assert(out.deep_view()[w] == h);
                        }
                    }
                }
            }
            proof {
                assert(seq_contains_str(out.deep_view(), chunk@)) by {
                    if seq_contains_str(before, chunk@) {
                        let w = choose|k: int| 0 <= k < before.len() && before[k] == chunk@;
                        assert(out.deep_view()[w] == chunk@);
                    } else {
                        assert(out.deep_view()[out.deep_view().len() - 1] == chunk@);
                    }
                }
                assert forall|h: Seq<char>| seq_contains_str(out.deep_view(), h) == (
                seq_contains_str(mid, h) || chunk_prefix_has(*record, j + 1, h)) by {
                    lemma_chunk_prefix_step(*record, j as int, h);
                    assert(record.chunks.deep_view()[j as int] == chunk@);
                    assert(seq_contains_str(before, h) == (seq_contains_str(mid, h)
                        || chunk_prefix_has(*record, j as int, h)));
                    assert(seq_contains_str(out.deep_view(), h) == (seq_contains_str(before, h)
                        || h == chunk@));
                    if h == chunk@ {
                        assert(chunk_prefix_has(*record, j + 1, h));
                        assert(seq_contains_str(out.deep_view(), h));
                    }
                }
                assert(collected_chunks(out.deep_view(), mid, *record, j + 1));
            }
            j += 1;
        }
        proof {
            assert forall|h: Seq<char>| seq_contains_str(out.deep_view(), h) == (seq_contains_str(
                base, h) || manifest_prefix_has(files@, i + 1, h)) by {
                lemma_manifest_prefix_step(files@, i as int, h);
                assert(seq_contains_str(out.deep_view(), h) == (seq_contains_str(mid, h)
                    || chunk_prefix_has(*record, record.chunks@.len() as int, h)));
                assert(seq_contains_str(mid, h) == (seq_contains_str(base, h)
                    || manifest_prefix_has(files@, i as int, h)));
                assert(chunk_prefix_has(*record, record.chunks@.len() as int, h)
                    == record_references(files@[i as int], h));
            }
            assert(collected_records(out.deep_view(), base, files@, i + 1));
        }
        i += 1;
    }
    out
}

/// The set of active digests: everything staging or any commit
/// references, each digest once.
pub fn active_digests(commits: &Vec<CommitRecord>, staging: &ManifestMap) -> (r: Vec<String>)
    ensures
        forall|h: Seq<char>| seq_contains_str(r.deep_view(), h) == digest_active(commits@,
            staging.entries@, h),
{
    let mut out: Vec<String> = Vec::new();
    out = collect_refs(out, &staging.entries);
    proof {
        assert(collected_commits(out.deep_view(), commits@, staging.entries@, 0));
    }
    let mut c: usize = 0;
    while c < commits.len()
        invariant
            0 <= c <= commits@.len(),
            collected_commits(out.deep_view(), commits@, staging.entries@, c as int),
        decreases commits@.len() - c,
    {
        let ghost mid = out.deep_view();
        out = collect_refs(out, &commits[c].files.entries);
        proof {
            assert forall|h: Seq<char>| seq_contains_str(out.deep_view(), h) == active_prefix(
                commits@, staging.entries@, c + 1, h) by {
                lemma_active_prefix_step(commits@, staging.entries@, c as int, h);
                assert(seq_contains_str(mid, h) == active_prefix(commits@, staging.entries@,
                    c as int, h));
                assert(seq_contains_str(out.deep_view(), h) == (seq_contains_str(mid, h)
                    || manifest_references(commits@[c as int].files.entries@, h)));
            }
            assert(collected_commits(out.deep_view(), commits@, staging.entries@, c + 1));
        }
        c += 1;
    }
    out
}

/// The garbage-collection plan: of the digests present on disk, those
/// not active (not referenced by any commit or by staging) are removed,
/// and no others.
pub fn plan_gc(present: &Vec<String>, active: &Vec<String>) -> (r: Vec<String>)
    ensures
        forall|k: int| 0 <= k < r@.len() ==> seq_contains_str(present.deep_view(),
            (#[trigger] r.deep_view()[k])) && !seq_contains_str(active.deep_view(),
            r.deep_view()[k]),
        forall|i: int| 0 <= i < present@.len() && !seq_contains_str(active.deep_view(),
            (#[trigger] present.deep_view()[i])) ==> seq_contains_str(r.deep_view(),
            present.deep_view()[i]),
{
    let mut out: Vec<String> = Vec::new();
    let mut i: usize = 0;
    while i < present.len()
        invariant
            0 <= i <= present@.len(),
            forall|k: int| 0 <= k < out@.len() ==> seq_contains_str(present.deep_view(),
                (#[trigger] out.deep_view()[k])) && !seq_contains_str(active.deep_view(),
                out.deep_view()[k]),
            forall|j: int| 0 <= j < i && !seq_contains_str(active.deep_view(),
                (#[trigger] present.deep_view()[j])) ==> seq_contains_str(out.deep_view(),
                present.deep_view()[j]),
        decreases present@.len() - i,
    {
        let ghost old_out = out.deep_view();
        if !contains_hash(active, present[i].as_str()) {
            proof {
                assert(present.deep_view()[i as int] == present@[i as int]@);
            }
            out.push(present[i].clone());
            proof {
                assert(out.deep_view()[out@.len() - 1] == present@[i as int]@);
                assert(seq_contains_str(present.deep_view(), out.deep_view()[out@.len() - 1]));
                assert forall|k: int| 0 <= k < out@.len() implies seq_contains_str(
                    present.deep_view(), (#[trigger] out.deep_view()[k])) && !seq_contains_str(
                    active.deep_view(), out.deep_view()[k]) by {
                    if k < old_out.len() {
                        assert(out.deep_view()[k] == old_out[k]);
                    }
                }
            }
        }
        proof {
            assert forall|j: int| 0 <= j < i + 1 && !seq_contains_str(active.deep_view(),
                (#[trigger] present.deep_view()[j])) implies seq_contains_str(out.deep_view(),
                present.deep_view()[j]) by {
                if j < i {
                    let m = choose|m: int| 0 <= m < old_out.len() && old_out[m]
                        == present.deep_view()[j];
                    assert(out.deep_view()[m] == present.deep_view()[j]);
                } else {
                    assert(out.deep_view()[out@.len() - 1] == present.deep_view()[j]);
                }
            }
        }
        i += 1;
    }
    out
}

/// Garbage collection never removes an active digest: whatever a commit
/// or staging references survives the plan.
pub proof fn lemma_gc_keeps_active(removed: Seq<Seq<char>>, active: Seq<Seq<char>>)
    requires
        forall|k: int| 0 <= k < removed.len() ==> !seq_contains_str(active,
            #[trigger] removed[k]),
    ensures
        forall|h: Seq<char>| seq_contains_str(active, h) ==> !seq_contains_str(removed, h),
{
    assert forall|h: Seq<char>| seq_contains_str(active, h) implies !seq_contains_str(removed,
        h) by {
        if seq_contains_str(removed, h) {
            let k = choose|k: int| 0 <= k < removed.len() && removed[k] == h;
            assert(!seq_contains_str(active, removed[k]));
        }
    }
}

/// How many of the first `j` chunk digests are missing from the
/// present set.
pub open spec fn missing_in_chunks(chunks: Seq<Seq<char>>, present: Seq<Seq<char>>, j: int) -> int
    decreases j,
{
    if j <= 0 {
        0
    } else {
        missing_in_chunks(chunks, present, j - 1) + (if seq_contains_str(present, chunks[j - 1]) {
            0int
        } else {
            1int
        })
    }
}

/// How many chunk references of the first `i` records are missing from
/// the present set.
pub open spec fn missing_in_files(files: Seq<FileRecord>, present: Seq<Seq<char>>, i: int) -> int
    decreases i,
{
    if i <= 0 {
        0
    } else {
        missing_in_files(files, present, i - 1) + missing_in_chunks(
            files[i - 1].chunks.deep_view(), present, files[i - 1].chunks.deep_view().len() as int)
    }
}

proof fn lemma_missing_chunks_bounds(chunks: Seq<Seq<char>>, present: Seq<Seq<char>>, j1: int,
    j2: int)
    requires
        0 <= j1 <= j2,
    ensures
        0 <= missing_in_chunks(chunks, present, j1) <= missing_in_chunks(chunks, present, j2),
    decreases j2,
{
    if j2 > 0 {
        if j1 == j2 {
            lemma_missing_chunks_bounds(chunks, present, j2 - 1, j2 - 1);
        } else {
            lemma_missing_chunks_bounds(chunks, present, j1, j2 - 1);
        }
    }
}

proof fn lemma_missing_files_bounds(files: Seq<FileRecord>, present: Seq<Seq<char>>, i1: int,
    i2: int)
    requires
        0 <= i1 <= i2,
    ensures
        0 <= missing_in_files(files, present, i1) <= missing_in_files(files, present, i2),
    decreases i2,
{
    if i2 > 0 {
        if i1 == i2 {
            lemma_missing_files_bounds(files, present, i2 - 1, i2 - 1);
        } else {
            lemma_missing_files_bounds(files, present, i1, i2 - 1);
        }
        lemma_missing_chunks_bounds(files[i2 - 1].chunks.deep_view(), present, 0,
            files[i2 - 1].chunks.deep_view().len() as int);
    }
}

/// Count the chunk references in a set of records that do not resolve
/// to a present digest: what the verify operation reports for files.
pub fn count_missing_references(files: &Vec<FileRecord>, present: &Vec<String>) -> (r: usize)
    requires
        missing_in_files(files@, present.deep_view(), files@.len() as int) <= usize::MAX,
    ensures
        r == missing_in_files(files@, present.deep_view(), files@.len() as int),
{
    let ghost pv = present.deep_view();
    let ghost total = missing_in_files(files@, pv, files@.len() as int);
    let mut count: usize = 0;
    let mut i: usize = 0;
    proof {
        lemma_missing_files_bounds(files@, pv, 0, files@.len() as int);
    }
    while i < files.len()
        invariant
            0 <= i <= files@.len(),
            pv == present.deep_view(),
            total == missing_in_files(files@, pv, files@.len() as int),
            total <= usize::MAX,
            count == missing_in_files(files@, pv, i as int),
            count <= total,
        decreases files@.len() - i,
    {
        let record = &files[i];
        let ghost cv = record.chunks.deep_view();
        let mut j: usize = 0;
        proof {
            lemma_missing_files_bounds(files@, pv, i + 1, files@.len() as int);
            lemma_missing_chunks_bounds(cv, pv, 0, cv.len() as int);
        }
        while j < record.chunks.len()
            invariant
                0 <= j <= record.chunks@.len(),
                record == files@[i as int],
                0 <= i < files@.len(),
                pv == present.deep_view(),
                cv == record.chunks.deep_view(),
                record.chunks@.len() == cv.len(),
                total == missing_in_files(files@, pv, files@.len() as int),
                total <= usize::MAX,
                count == missing_in_files(files@, pv, i as int) + missing_in_chunks(cv, pv,
                    j as int),
                missing_in_files(files@, pv, i as int) + missing_in_chunks(cv, pv, cv.len() as int)
                    <= total,
            decreases record.chunks@.len() - j,
        {
            proof {
                lemma_missing_chunks_bounds(cv, pv, j + 1, cv.len() as int);
            }
            let chunk = &record.chunks[j];
            proof {
                assert(cv[j as int] == chunk@);
            }
            if !contains_hash(present, chunk.as_str()) {
                count += 1;
            }
            j += 1;
        }
        proof {
            assert(record.chunks@.len() as int == cv.len() as int);
            assert(missing_in_files(files@, pv, i + 1) == missing_in_files(files@, pv, i as int)
                + missing_in_chunks(cv, pv, cv.len() as int));
        }
        i += 1;
    }
    count
}

/// Decode a stored chunk record and check its integrity: bytes come
/// back only when their digest is the requested one, so a corrupted
/// record surfaces as a chunk error and can never pass for the chunk.
pub fn decode_verified_chunk(hash: &str, record_bytes: &[u8]) -> (r: Result<Vec<u8>, BlazeError>)
    ensures
        r matches Ok(d) ==> digest_of(d@) == hash@,
        forall|orig: Seq<u8>| decodes_to(record_bytes@, orig) ==> (if digest_of(orig) == hash@ {
            r matches Ok(d) && d@ == orig
        } else {
            r is Err
        }),
        r matches Err(e) ==> e is Chunk,
{
    match decompress_chunk_data(record_bytes) {
        Ok(data) => {
            let computed = compute_chunk_hash(data.as_slice());
            if str_eq(computed.as_str(), hash) {
                Ok(data)
            } else {
                Err(BlazeError::Chunk(String::from_str("Chunk integrity check failed")))
            }
        },
        Err(e) => Err(e),
    }
}

/// Reconstruct a chunk stored as a delta and check its integrity: the
/// compressed delta payload is decoded, applied to the base bytes, and
/// accepted only when the result's digest is the requested one.
pub fn decode_verified_delta_chunk(hash: &str, base_data: &[u8], payload: &[u8]) -> (r: Result<
    Vec<u8>, BlazeError>)
    ensures
        r matches Ok(d) ==> digest_of(d@) == hash@,
        forall|dd: Seq<u8>| decodes_to(payload@, dd) ==> (if digest_of(apply_delta_spec(
            base_data@, dd)) == hash@ {
            r matches Ok(d) && d@ == apply_delta_spec(base_data@, dd)
        } else {
            r is Err
        }),
        r matches Err(e) ==> e is Chunk,
{
    match decompress_chunk_data(payload) {
        Ok(delta) => {
            let data = crate::delta::apply_delta(base_data, delta.as_slice());
            let computed = compute_chunk_hash(data.as_slice());
            if str_eq(computed.as_str(), hash) {
                Ok(data)
            } else {
                Err(BlazeError::Chunk(String::from_str("Chunk integrity check failed")))
            }
        },
        Err(e) => Err(e),
    }
}

/// Whether a delta of this size is worth storing in place of the raw
/// bytes: it must be smaller than the given percentage of them.
pub fn delta_worthwhile(delta_len: usize, data_len: usize, percent: usize) -> (r: bool)
    requires
        percent <= 100,
        data_len <= usize::MAX / 100,
    ensures
        r == (delta_len < (data_len * percent) / 100),
{
    proof {
        vstd::arithmetic::div_mod::lemma_fundamental_div_mod(usize::MAX as int, 100);
        assert(data_len * percent <= usize::MAX) by (nonlinear_arith)
            requires
                data_len <= usize::MAX as int / 100,
                0 <= percent <= 100,
                usize::MAX as int == 100 * (usize::MAX as int / 100) + usize::MAX as int % 100,
                usize::MAX as int % 100 >= 0,
        ;
    }
    delta_len < (data_len * percent) / 100
}

/// The index of the first zero byte, or the length when there is none.
pub open spec fn first_zero(s: Seq<u8>) -> int
    decreases s.len(),
{
    if s.len() == 0 {
        0
    } else if s[0] == 0 {
        0
    } else {
        1 + first_zero(s.skip(1))
    }
}

proof fn lemma_first_zero_at(s: Seq<u8>, k: int)
    requires
        0 <= k <= s.len(),
        forall|j: int| 0 <= j < k ==> s[j] != 0,
        k < s.len() ==> s[k] == 0,
    ensures
        first_zero(s) == k,
    decreases s.len(),
{
    if s.len() == 0 {
    } else if s[0] == 0 {
    } else {
        lemma_first_zero_at(s.skip(1), k - 1);
    }
}

/// Frame a delta record: the tag byte, the UTF-8 of the base digest, a
/// zero separator, then the compressed delta payload.
pub fn make_delta_record(base_hash: &str, payload: &[u8]) -> (r: Vec<u8>)
    ensures
        r@ == seq![3u8] + base_hash@.map_values(|c: char| c as u8) + seq![0u8] + payload@,
        r@.len() >= 1 && r@[0] == 3,
{
    let mut out: Vec<u8> = Vec::new();
    out.push(3);
    let hlen = base_hash.unicode_len();
    let mut i: usize = 0;
    while i < hlen
        invariant
            hlen == base_hash@.len(),
            0 <= i <= hlen,
            out@ == seq![3u8] + base_hash@.map_values(|c: char| c as u8).take(i as int),
        decreases hlen - i,
    {
        let c = base_hash.get_char(i);
        out.push(c as u8);
        proof {
            assert(out@ =~= seq![3u8] + base_hash@.map_values(|c: char| c as u8).take(i + 1));
        }
        i += 1;
    }
    out.push(0);
    let mut j: usize = 0;
    let ghost mid = out@;
    while j < payload.len()
        invariant
            0 <= j <= payload@.len(),
            out@ == mid + payload@.take(j as int),
        decreases payload@.len() - j,
    {
        out.push(payload[j]);
        proof {
            assert(out@ =~= mid + payload@.take(j + 1));
        }
        j += 1;
    }
    proof {
        let hb = base_hash@.map_values(|c: char| c as u8);
        assert(hb.take(hb.len() as int) =~= hb);
        assert(payload@.take(payload@.len() as int) =~= payload@);
        assert(out@ =~= seq![3u8] + hb + seq![0u8] + payload@);
    }
    out
}

/// Parse a delta record into its base digest and compressed payload.
/// The record must open with the delta tag; a missing separator or an
/// empty payload is a chunk error.
pub fn parse_delta_record(record: &[u8]) -> (r: Result<(String, Vec<u8>), BlazeError>)
    requires
        record@.len() >= 1,
        record@[0] == 3,
    ensures
        r is Ok <==> first_zero(record@) < record@.len() - 1,
        r matches Ok((h, p)) ==> h@.len() == first_zero(record@) - 1 && (forall|i: int|
            0 <= i < h@.len() ==> h@[i] == (#[trigger] record@[1 + i]) as char) && p@
            == record@.skip(first_zero(record@) + 1),
        r matches Err(e) ==> e is Chunk,
{
    let len = record.len();
    let mut nz: usize = 0;
    while nz < len && record[nz] != 0
        invariant
            len == record@.len(),
            0 <= nz <= len,
            forall|j: int| 0 <= j < nz ==> record@[j] != 0,
        decreases len - nz,
    {
        nz += 1;
    }
    proof {
        lemma_first_zero_at(record@, nz as int);
    }
    if nz >= len - 1 {
        return Err(BlazeError::Chunk(String::from_str("Invalid delta format")));
    }
    let mut h = String::new();
    let mut i: usize = 1;
    while i < nz
        invariant
            1 <= i <= nz,
            nz < record@.len(),
            h@.len() == i - 1,
            forall|j: int| 0 <= j < h@.len() ==> h@[j] == (#[trigger] record@[1 + j]) as char,
        decreases nz - i,
    {
        let b = record[i];
        push_char(&mut h, b as char);
        i += 1;
    }
    let payload = vstd::slice::slice_to_vec(vstd::slice::slice_subrange(record, nz + 1, len));
    proof {
        assert(payload@ =~= record@.skip(nz + 1));
    }
    Ok((h, payload))
}

proof fn lemma_hex_char_byte(c: char)
    requires
        crate::digest::is_lower_hex_char(c),
    ensures
        (c as u8) != 0,
        ((c as u8) as char) == c,
{
    assert(('0' as u32) == 48 && ('9' as u32) == 57 && ('a' as u32) == 97 && ('f' as u32) == 102);
    assert(48 <= (c as u32) <= 57 || 97 <= (c as u32) <= 102);
    assert((c as u8) as u32 == c as u32);
}

/// Framing a delta record and parsing it back recovers the base digest
/// and the payload exactly: digest characters are nonzero bytes, so the
/// zero separator is found where it was written.
pub proof fn lemma_delta_record_round_trip(h: Seq<char>, p: Seq<u8>)
    requires
        is_digest(h),
        p.len() >= 1,
    ensures
        ({
            let rec = seq![3u8] + h.map_values(|c: char| c as u8) + seq![0u8] + p;
            &&& first_zero(rec) == h.len() as int + 1
            &&& first_zero(rec) < rec.len() - 1
            &&& forall|i: int| 0 <= i < h.len() ==> (#[trigger] rec[1 + i]) as char == h[i]
            &&& rec.skip(first_zero(rec) + 1) == p
        }),
{
    let hb = h.map_values(|c: char| c as u8);
    let rec = seq![3u8] + hb + seq![0u8] + p;
    assert(rec.len() == 2 + h.len() + p.len());
    assert forall|j: int| 0 <= j < h.len() + 1 implies rec[j] != 0 by {
        if j == 0 {
        } else {
            assert(rec[j] == hb[j - 1]);
            lemma_hex_char_byte(h[j - 1]);
        }
    }
    assert(rec[h.len() as int + 1] == 0);
    lemma_first_zero_at(rec, h.len() as int + 1);
    assert forall|i: int| 0 <= i < h.len() implies (#[trigger] rec[1 + i]) as char == h[i] by {
        assert(rec[1 + i] == hb[i]);
        lemma_hex_char_byte(h[i]);
    }
    assert(rec.skip(h.len() as int + 2) =~= p);
}

/// The sum of the cached chunks' sizes.
pub open spec fn cache_sum(s: Seq<(String, Vec<u8>)>) -> int
    decreases s.len(),
{
    if s.len() == 0 {
        0
    } else {
        cache_sum(s.drop_last()) + s.last().1@.len()
    }
}

proof fn lemma_cache_sum_nonneg(s: Seq<(String, Vec<u8>)>)
    ensures
        cache_sum(s) >= 0,
    decreases s.len(),
{
    if s.len() > 0 {
        lemma_cache_sum_nonneg(s.drop_last());
    }
}

/// Whether the cache holds an entry for this digest.
pub open spec fn cache_has(s: Seq<(String, Vec<u8>)>, h: Seq<char>) -> bool {
    exists|i: int| 0 <= i < s.len() && (#[trigger] s[i]).0@ == h
}

/// The bytes the cache holds for a digest.
pub open spec fn cache_value(s: Seq<(String, Vec<u8>)>, h: Seq<char>) -> Seq<u8> {
    s[choose|i: int| 0 <= i < s.len() && (#[trigger] s[i]).0@ == h].1@
}

/// With unique digests, the entry at a position is what lookup of its
/// digest finds.
proof fn lemma_cache_value_at(s: Seq<(String, Vec<u8>)>, i: int)
    requires
        forall|a: int, b: int| 0 <= a < b < s.len() ==> (#[trigger] s[a]).0@ != (
        #[trigger] s[b]).0@,
        0 <= i < s.len(),
    ensures
        cache_has(s, s[i].0@),
        cache_value(s, s[i].0@) == s[i].1@,
{
    assert(cache_has(s, s[i].0@)) by {
        assert(0 <= i < s.len() && s[i].0@ == s[i].0@);
    }
    let w = choose|k: int| 0 <= k < s.len() && (#[trigger] s[k]).0@ == s[i].0@;
    if w < i {
        assert(s[w].0@ != s[i].0@);
    } else if w > i {
        assert(s[i].0@ != s[w].0@);
    }
}

/// Chunk storage manager: the in-memory side of the chunk store.  The
/// byte cache holds recently touched chunks under a size budget; the
/// existence and negative caches short-circuit filesystem checks; the
/// delta cache records which chunks were delta-encoded against which
/// bases.
pub struct ChunkStore {
    /// Cache of loaded chunks (digest, bytes)
    pub chunk_cache: Vec<(String, Vec<u8>)>,
    /// Maximum cache size in bytes
    pub max_cache_size: usize,
    /// Current cache size in bytes
    pub current_cache_size: usize,
    /// Digests known to exist in storage
    pub existence_cache: Vec<String>,
    /// Digests known to be absent from storage
    pub negative_cache: Vec<String>,
    /// Digests delta-encoded against each base digest
    pub delta_cache: Vec<(String, Vec<String>)>,
}

impl ChunkStore {
    /// Well-formed: the recorded size is the sum of the cached chunk
    /// sizes and stays within the budget, cached digests are unique,
    /// and no digest is both known-present and known-absent.
    pub open spec fn wf(&self) -> bool {
        &&& cache_sum(self.chunk_cache@) == self.current_cache_size as int
        &&& self.current_cache_size <= self.max_cache_size
        &&& forall|i: int, j: int| 0 <= i < j < self.chunk_cache@.len() ==> (
        #[trigger] self.chunk_cache@[i]).0@ != (#[trigger] self.chunk_cache@[j]).0@
        &&& forall|h: Seq<char>| !(seq_contains_str(self.existence_cache.deep_view(), h)
            && seq_contains_str(self.negative_cache.deep_view(), h))
    }

    /// Whether the byte cache holds this digest.
    pub open spec fn cached(&self, h: Seq<char>) -> bool {
        cache_has(self.chunk_cache@, h)
    }

    /// Whether this digest is known to exist in storage.
    pub open spec fn known_exists(&self, h: Seq<char>) -> bool {
        seq_contains_str(self.existence_cache.deep_view(), h)
    }

    /// Whether this digest is known to be absent from storage.
    pub open spec fn known_missing(&self, h: Seq<char>) -> bool {
        seq_contains_str(self.negative_cache.deep_view(), h)
    }

    /// Create a new chunk store with the default cache budget.
    pub fn new() -> (r: ChunkStore)
        ensures
            r.wf(),
            forall|h: Seq<char>| !r.cached(h) && !r.known_exists(h) && !r.known_missing(h),
            r.max_cache_size == 64 * 1024 * 1024,
    {
        ChunkStore {
            chunk_cache: Vec::new(),
            max_cache_size: 64 * 1024 * 1024,
            current_cache_size: 0,
            existence_cache: Vec::new(),
            negative_cache: Vec::new(),
            delta_cache: Vec::new(),
        }
    }

    /// Look a digest up in the byte cache.
    pub fn cache_lookup(&self, hash: &str) -> (r: Option<&Vec<u8>>)
        requires
            self.wf(),
        ensures
            r is Some <==> self.cached(hash@),
            r matches Some(d) ==> d@ == cache_value(self.chunk_cache@, hash@),
    {
        let mut i: usize = 0;
        while i < self.chunk_cache.len()
            invariant
                self.wf(),
                0 <= i <= self.chunk_cache@.len(),
                forall|j: int| 0 <= j < i ==> (#[trigger] self.chunk_cache@[j]).0@ != hash@,
            decreases self.chunk_cache@.len() - i,
        {
            if str_eq(self.chunk_cache[i].0.as_str(), hash) {
                proof {
                    assert(self.chunk_cache@[i as int].0@ == hash@);
                    lemma_cache_value_at(self.chunk_cache@, i as int);
                }
                return Some(&self.chunk_cache[i].1);
            }
            i += 1;
        }
        None
    }

    /// Cache statistics: entry count, used bytes, and budget.
    pub fn cache_stats(&self) -> (r: (usize, usize, usize))
        ensures
            r.0 == self.chunk_cache@.len(),
            r.1 == self.current_cache_size,
            r.2 == self.max_cache_size,
    {
        (self.chunk_cache.len(), self.current_cache_size, self.max_cache_size)
    }

    /// Admit a chunk to the byte cache: entries over a quarter of the
    /// budget are refused; otherwise entries are evicted until the new
    /// chunk fits, and the caches stay within budget.
    pub fn maybe_cache_chunk(&mut self, hash: &str, data: Vec<u8>)
        requires
            old(self).wf(),
        ensures
            final(self).wf(),
            data@.len() <= old(self).max_cache_size / 4 ==> final(self).cached(hash@),
            data@.len() <= old(self).max_cache_size / 4 && !old(self).cached(hash@) ==> cache_value(
                final(self).chunk_cache@, hash@) == data@,
            forall|h: Seq<char>| final(self).cached(h) ==> h == hash@ || old(self).cached(h),
            forall|h: Seq<char>| final(self).known_exists(h) == old(self).known_exists(h)
                && final(self).known_missing(h) == old(self).known_missing(h),
            final(self).max_cache_size == old(self).max_cache_size,
    {
        let data_size = data.len();
        if data_size > self.max_cache_size / 4 {
            return;
        }
        if self.cache_lookup(hash).is_some() {
            return;
        }
        while self.current_cache_size > self.max_cache_size - data_size
            && self.chunk_cache.len() > 0
            invariant
                cache_sum(self.chunk_cache@) == self.current_cache_size as int,
                self.current_cache_size <= self.max_cache_size,
                data_size <= self.max_cache_size,
                self.max_cache_size == old(self).max_cache_size,
                self.existence_cache == old(self).existence_cache,
                self.negative_cache == old(self).negative_cache,
                self.delta_cache == old(self).delta_cache,
                old(self).wf(),
                forall|i: int, j: int| 0 <= i < j < self.chunk_cache@.len() ==> (
                #[trigger] self.chunk_cache@[i]).0@ != (#[trigger] self.chunk_cache@[j]).0@,
                forall|h: Seq<char>| cache_has(self.chunk_cache@, h) ==> old(self).cached(h),
                !cache_has(self.chunk_cache@, hash@),
            decreases self.chunk_cache@.len(),
        {
            let ghost oldc = self.chunk_cache@;
            let evicted = self.chunk_cache.pop().unwrap();
            proof {
                lemma_cache_sum_nonneg(self.chunk_cache@);
                assert(oldc.drop_last() =~= self.chunk_cache@);
                assert forall|h: Seq<char>| cache_has(self.chunk_cache@, h) implies cache_has(
                    oldc, h) by {
                    let w = choose|i: int| 0 <= i < self.chunk_cache@.len() && (
                    #[trigger] self.chunk_cache@[i]).0@ == h;
                    assert(oldc[w].0@ == h);
                }
            }
            self.current_cache_size = self.current_cache_size - evicted.1.len();
        }
        let ghost before = self.chunk_cache@;
        self.chunk_cache.push((hash.to_owned(), data));
        self.current_cache_size = self.current_cache_size + data_size;
        proof {
            assert(self.chunk_cache@.drop_last() =~= before);
            assert(self.chunk_cache@.last().0@ == hash@);
            assert(self.chunk_cache@.last().1@.len() == data_size);
            assert(cache_has(self.chunk_cache@, hash@)) by {
                assert(self.chunk_cache@[self.chunk_cache@.len() - 1].0@ == hash@);
            }
            assert forall|h: Seq<char>| cache_has(self.chunk_cache@, h) implies h == hash@ || old(
                self).cached(h) by {
                let w = choose|i: int| 0 <= i < self.chunk_cache@.len() && (
                #[trigger] self.chunk_cache@[i]).0@ == h;
                if w < self.chunk_cache@.len() - 1 {
                    assert(before[w].0@ == h);
                }
            }
            assert forall|i: int, j: int| 0 <= i < j < self.chunk_cache@.len() implies (
            #[trigger] self.chunk_cache@[i]).0@ != (#[trigger] self.chunk_cache@[j]).0@ by {
                if j == self.chunk_cache@.len() - 1 {
                    assert(before[i].0@ == self.chunk_cache@[i].0@);
                    if self.chunk_cache@[i].0@ == hash@ {
                        assert(cache_has(before, hash@));
                    }
                }
            }
            lemma_cache_value_at(self.chunk_cache@, self.chunk_cache@.len() - 1);
        }
    }

    /// Drop everything from every cache.
    pub fn clear_cache(&mut self)
        ensures
            final(self).wf(),
            forall|h: Seq<char>| !final(self).cached(h) && !final(self).known_exists(h) && !final(
                self).known_missing(h),
            final(self).max_cache_size == old(self).max_cache_size,
    {
        self.chunk_cache = Vec::new();
        self.current_cache_size = 0;
        self.existence_cache = Vec::new();
        self.negative_cache = Vec::new();
        self.delta_cache = Vec::new();
    }

    /// Record that a digest exists in storage.
    pub fn mark_exists(&mut self, hash: &str)
        requires
            old(self).wf(),
        ensures
            final(self).wf(),
            final(self).known_exists(hash@),
            !final(self).known_missing(hash@),
            forall|h: Seq<char>| h != hash@ ==> final(self).known_exists(h) == old(
                self).known_exists(h) && final(self).known_missing(h) == old(self).known_missing(
                h),
            final(self).chunk_cache == old(self).chunk_cache,
            final(self).max_cache_size == old(self).max_cache_size,
            final(self).current_cache_size == old(self).current_cache_size,
    {
        remove_string(&mut self.negative_cache, hash);
        insert_string(&mut self.existence_cache, hash);
    }

    /// Record that a digest is absent from storage.
    pub fn mark_missing(&mut self, hash: &str)
        requires
            old(self).wf(),
        ensures
            final(self).wf(),
            final(self).known_missing(hash@),
            !final(self).known_exists(hash@),
            forall|h: Seq<char>| h != hash@ ==> final(self).known_exists(h) == old(
                self).known_exists(h) && final(self).known_missing(h) == old(self).known_missing(
                h),
            final(self).max_cache_size == old(self).max_cache_size,
            final(self).current_cache_size == old(self).current_cache_size,
            final(self).chunk_cache == old(self).chunk_cache,
    {
        remove_string(&mut self.existence_cache, hash);
        insert_string(&mut self.negative_cache, hash);
    }

    /// What the caches know of a digest's existence: known present,
    /// known absent, or unknown (the filesystem must be asked).
    pub fn cached_existence(&self, hash: &str) -> (r: Option<bool>)
        requires
            self.wf(),
        ensures
            r == Some(true) ==> self.cached(hash@) || self.known_exists(hash@),
            r == Some(false) ==> self.known_missing(hash@),
            r is None ==> !self.cached(hash@) && !self.known_exists(hash@) && !self.known_missing(
                hash@),
    {
        if self.cache_lookup(hash).is_some() {
            return Some(true);
        }
        if contains_hash(&self.existence_cache, hash) {
            return Some(true);
        }
        if contains_hash(&self.negative_cache, hash) {
            return Some(false);
        }
        None
    }

    /// Record that a chunk was delta-encoded against a base.
    pub fn record_delta_link(&mut self, base_hash: &str, chunk_hash: &str)
        requires
            old(self).wf(),
        ensures
            final(self).wf(),
            final(self).chunk_cache == old(self).chunk_cache,
            final(self).existence_cache == old(self).existence_cache,
            final(self).negative_cache == old(self).negative_cache,
            final(self).max_cache_size == old(self).max_cache_size,
            final(self).current_cache_size == old(self).current_cache_size,
    {
        let mut i: usize = 0;
        while i < self.delta_cache.len()
            invariant
                0 <= i <= self.delta_cache@.len(),
                self.chunk_cache == old(self).chunk_cache,
                self.existence_cache == old(self).existence_cache,
                self.negative_cache == old(self).negative_cache,
                self.max_cache_size == old(self).max_cache_size,
                self.current_cache_size == old(self).current_cache_size,
                old(self).wf(),
                self.wf(),
            decreases self.delta_cache@.len() - i,
        {
            if str_eq(self.delta_cache[i].0.as_str(), base_hash) {
                let mut entry = self.delta_cache.remove(i);
                entry.1.push(chunk_hash.to_owned());
                self.delta_cache.insert(i, entry);
                return;
            }
            i += 1;
        }
        let mut links: Vec<String> = Vec::new();
        links.push(chunk_hash.to_owned());
        self.delta_cache.push((base_hash.to_owned(), links));
    }

    /// The digests recorded as delta neighbours of a base.
    pub fn delta_candidates(&self, base_hash: &str) -> (r: Vec<String>)
    {
        let mut i: usize = 0;
        while i < self.delta_cache.len()
            invariant
                0 <= i <= self.delta_cache@.len(),
            decreases self.delta_cache@.len() - i,
        {
            if str_eq(self.delta_cache[i].0.as_str(), base_hash) {
                let mut out: Vec<String> = Vec::new();
                let entry = &self.delta_cache[i];
                let mut j: usize = 0;
                while j < entry.1.len()
                    invariant
                        0 <= j <= entry.1@.len(),
                    decreases entry.1@.len() - j,
                {
                    out.push(entry.1[j].clone());
                    j += 1;
                }
                return out;
            }
            i += 1;
        }
        Vec::new()
    }

    /// The recorded delta bases, oldest first.
    pub fn delta_bases(&self) -> (r: Vec<String>)
    {
        let mut out: Vec<String> = Vec::new();
        let mut i: usize = 0;
        while i < self.delta_cache.len()
            invariant
                0 <= i <= self.delta_cache@.len(),
            decreases self.delta_cache@.len() - i,
        {
            out.push(self.delta_cache[i].0.clone());
            i += 1;
        }
        out
    }
}

fn remove_string(v: &mut Vec<String>, s: &str)
    ensures
        !seq_contains_str(final(v).deep_view(), s@),
        forall|h: Seq<char>| h != s@ ==> seq_contains_str(final(v).deep_view(), h)
            == seq_contains_str(old(v).deep_view(), h),
{
    let mut out: Vec<String> = Vec::new();
    let mut i: usize = 0;
    while i < v.len()
        invariant
            0 <= i <= v@.len(),
            !seq_contains_str(out.deep_view(), s@),
            forall|h: Seq<char>| h != s@ ==> seq_contains_str(out.deep_view(), h)
                == seq_contains_str(v.deep_view().take(i as int), h),
        decreases v@.len() - i,
    {
        let ghost old_out = out.deep_view();
        if !str_eq(v[i].as_str(), s) {
            out.push(v[i].clone());
            proof {
                assert(out.deep_view()[out@.len() - 1] == v.deep_view()[i as int]);
                assert(out.deep_view().drop_last() =~= old_out);
                assert forall|h: Seq<char>| h != s@ implies seq_contains_str(out.deep_view(), h)
                    == seq_contains_str(v.deep_view().take(i + 1), h) by {
                    lemma_contains_take_step(out.deep_view(), old_out, v.deep_view(), i as int, h);
                }
                assert(!seq_contains_str(out.deep_view(), s@)) by {
                    if seq_contains_str(out.deep_view(), s@) {
                        let w = choose|k: int| 0 <= k < out.deep_view().len()
                            && out.deep_view()[k] == s@;
                        if w < old_out.len() {
                            assert(old_out[w] == s@);
                        } else {
                            assert(v.deep_view()[i as int] == s@);
                            assert(v@[i as int]@ == s@);
                        }
                    }
                }
            }
        } else {
            proof {
                assert(v.deep_view()[i as int] == s@);
                assert forall|h: Seq<char>| h != s@ implies seq_contains_str(out.deep_view(), h)
                    == seq_contains_str(v.deep_view().take(i + 1), h) by {
                    lemma_contains_take_same(out.deep_view(), v.deep_view(), i as int, h);
                }
            }
        }
        i += 1;
    }
    proof {
        assert(v.deep_view().take(v.deep_view().len() as int) =~= v.deep_view());
    }
    *v = out;
}

proof fn lemma_contains_take_step(newv: Seq<Seq<char>>, oldv: Seq<Seq<char>>, src: Seq<Seq<char>>,
    i: int, h: Seq<char>)
    requires
        0 <= i < src.len(),
        newv.len() == oldv.len() + 1,
        newv.drop_last() == oldv,
        newv.last() == src[i],
        seq_contains_str(oldv, h) == seq_contains_str(src.take(i), h),
    ensures
        seq_contains_str(newv, h) == seq_contains_str(src.take(i + 1), h),
{
    if seq_contains_str(newv, h) {
        let w = choose|k: int| 0 <= k < newv.len() && newv[k] == h;
        if w < oldv.len() {
            assert(oldv[w] == h);
            let w2 = choose|k: int| 0 <= k < src.take(i).len() && (#[trigger] src.take(i)[k]) == h;
            assert(src.take(i + 1)[w2] == h);
        } else {
            assert(src.take(i + 1)[i] == h);
        }
        assert(seq_contains_str(src.take(i + 1), h));
    }
    if seq_contains_str(src.take(i + 1), h) {
        let w = choose|k: int| 0 <= k < src.take(i + 1).len() && (#[trigger] src.take(i + 1)[k]) == h;
        if w < i {
            assert(src.take(i)[w] == h);
            let w2 = choose|k: int| 0 <= k < oldv.len() && oldv[k] == h;
            assert(newv[w2] == h);
        } else {
            assert(newv[newv.len() - 1] == h);
        }
        assert(seq_contains_str(newv, h));
    }
}

proof fn lemma_contains_take_same(outv: Seq<Seq<char>>, src: Seq<Seq<char>>, i: int, h: Seq<char>)
    requires
        0 <= i < src.len(),
        h != src[i],
        seq_contains_str(outv, h) == seq_contains_str(src.take(i), h),
    ensures
        seq_contains_str(outv, h) == seq_contains_str(src.take(i + 1), h),
{
    if seq_contains_str(src.take(i + 1), h) {
        let w = choose|k: int| 0 <= k < src.take(i + 1).len() && (#[trigger] src.take(i + 1)[k]) == h;
        assert(w != i);
        assert(src.take(i)[w] == h);
    }
    if seq_contains_str(src.take(i), h) {
        let w = choose|k: int| 0 <= k < src.take(i).len() && src.take(i)[k] == h;
        assert(src.take(i + 1)[w] == h);
    }
}

fn insert_string(v: &mut Vec<String>, s: &str)
    ensures
        seq_contains_str(final(v).deep_view(), s@),
        forall|h: Seq<char>| h != s@ ==> seq_contains_str(final(v).deep_view(), h)
            == seq_contains_str(old(v).deep_view(), h),
{
    if !contains_hash(v, s) {
        let ghost oldv = v.deep_view();
        v.push(s.to_owned());
        proof {
            assert(v.deep_view()[v.deep_view().len() - 1] == s@);
            assert(v.deep_view().drop_last() =~= oldv);
            assert forall|h: Seq<char>| h != s@ implies seq_contains_str(v.deep_view(), h)
                == seq_contains_str(oldv, h) by {
                if seq_contains_str(v.deep_view(), h) {
                    let w = choose|k: int| 0 <= k < v.deep_view().len() && v.deep_view()[k] == h;
                    assert(w < oldv.len());
                    assert(oldv[w] == h);
                }
                if seq_contains_str(oldv, h) {
                    let w = choose|k: int| 0 <= k < oldv.len() && oldv[k] == h;
                    assert(v.deep_view()[w] == h);
                }
            }
        }
    }
}

} // verus!

