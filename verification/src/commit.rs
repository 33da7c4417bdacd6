//! Commits and canonical hashing: the tree digest of a manifest map and
//! the commit digest over a commit's canonical fields.

use vstd::prelude::*;
use crate::digest::{digest_of, compute_chunk_hash};
use crate::errors::BlazeError;
use crate::records::{FileRecord, ManifestMap, record_model, lemma_manifest_canonical};
use crate::strutil::{dec_rep, u64_to_string, trim_str, trim_spec};
use vstd::utf8::encode_utf8;

verus! {

broadcast use vstd::string::group_string_axioms;

/// Represents a commit: an immutable record of a manifest map plus
/// metadata and a parent link.
#[derive(Debug, Clone)]
pub struct CommitRecord {
    pub hash: String,
    pub parent: Option<String>,
    pub message: String,
    pub timestamp: u64,
    pub tree_hash: String,
    pub files: ManifestMap,
}

/// Chunk digests joined by commas, with no other bytes.
pub open spec fn digests_joined(ds: Seq<Seq<char>>) -> Seq<char>
    decreases ds.len(),
{
    if ds.len() == 0 {
        Seq::empty()
    } else if ds.len() == 1 {
        ds[0]
    } else {
        digests_joined(ds.drop_last()) + ","@ + ds.last()
    }
}

/// The canonical line one manifest entry contributes to the tree text:
/// the path, a colon, the joined chunk digests, a newline.
pub open spec fn record_line(r: &FileRecord) -> Seq<char> {
    r.path@ + ":"@ + digests_joined(r.chunks.deep_view()) + "\n"@
}

/// The canonical serialization of a manifest map: one line per entry,
/// in path order.
pub open spec fn tree_text(entries: Seq<FileRecord>) -> Seq<char>
    decreases entries.len(),
{
    if entries.len() == 0 {
        Seq::empty()
    } else {
        tree_text(entries.drop_last()) + record_line(&entries.last())
    }
}

/// The tree digest of a manifest map: the digest of its canonical
/// serialization.
pub open spec fn tree_digest_spec(entries: Seq<FileRecord>) -> Seq<char> {
    digest_of(encode_utf8(tree_text(entries)))
}

/// Compute the tree digest of a manifest map.
pub fn create_tree_hash(files: &ManifestMap) -> (r: String)
    requires
        files.wf(),
    ensures
        r@ == tree_digest_spec(files.entries@),
{
    let mut text = String::new();
    let mut i: usize = 0;
    while i < files.entries.len()
        invariant
            0 <= i <= files.entries@.len(),
            text@ == tree_text(files.entries@.take(i as int)),
        decreases files.entries@.len() - i,
    {
        let rec = &files.entries[i];
        text.append(rec.path.as_str());
        text.append(":");
        let ghost line_start = text@;
        let mut j: usize = 0;
        while j < rec.chunks.len()
            invariant
                0 <= j <= rec.chunks@.len(),
                rec == files.entries@[i as int],
                0 <= i < files.entries@.len(),
                line_start == tree_text(files.entries@.take(i as int)) + rec.path@ + ":"@,
                text@ == line_start + digests_joined(rec.chunks.deep_view().take(j as int)),
            decreases rec.chunks@.len() - j,
        {
            if j > 0 {
                text.append(",");
            }
            text.append(rec.chunks[j].as_str());
            proof {
                let ds = rec.chunks.deep_view();
                assert(ds.take(j + 1).drop_last() =~= ds.take(j as int));
                assert(ds.take(j + 1).last() == ds[j as int]);
                if j == 0 {
                    assert(digests_joined(ds.take(1)) == ds[0]);
                    assert(text@ =~= line_start + digests_joined(ds.take(1)));
                } else {
                    assert(text@ =~= line_start + (digests_joined(ds.take(j as int)) + ","@ + ds[
                        j as int]));
                }
            }
            j += 1;
        }
        text.append("\n");
        proof {
            let ds = rec.chunks.deep_view();
            assert(ds.take(ds.len() as int) =~= ds);
            let taken = files.entries@.take(i + 1);
            assert(taken.drop_last() =~= files.entries@.take(i as int));
            assert(taken.last() == files.entries@[i as int]);
            assert(text@ =~= tree_text(files.entries@.take(i as int)) + record_line(rec));
        }
        i += 1;
    }
    proof {
        assert(files.entries@.take(files.entries@.len() as int) =~= files.entries@);
    }
    compute_chunk_hash(text.as_str().as_bytes())
}

proof fn lemma_tree_text_congruent(ea: Seq<FileRecord>, eb: Seq<FileRecord>)
    requires
        ea.len() == eb.len(),
        forall|i: int| 0 <= i < ea.len() ==> record_model(&ea[i]) == record_model(&eb[i]),
    ensures
        tree_text(ea) == tree_text(eb),
    decreases ea.len(),
{
    if ea.len() > 0 {
        assert(ea.drop_last().len() == eb.drop_last().len());
        assert forall|i: int| 0 <= i < ea.drop_last().len() implies record_model(
            &ea.drop_last()[i]) == record_model(&eb.drop_last()[i]) by {
            assert(ea.drop_last()[i] == ea[i] && eb.drop_last()[i] == eb[i]);
        }
        lemma_tree_text_congruent(ea.drop_last(), eb.drop_last());
        assert(record_line(&ea.last()) == record_line(&eb.last())) by {
            assert(record_model(&ea[ea.len() - 1]) == record_model(&eb[eb.len() - 1]));
            assert(ea.last().path@ == eb.last().path@);
            assert(ea.last().chunks.deep_view() == eb.last().chunks.deep_view());
        }
    }
}

/// Equal manifest maps have equal tree digests: the tree digest is a
/// function of the map alone, not of how it was built.
pub proof fn lemma_tree_digest_of_map(a: &ManifestMap, b: &ManifestMap)
    requires
        a.wf(),
        b.wf(),
        a@ == b@,
    ensures
        tree_digest_spec(a.entries@) == tree_digest_spec(b.entries@),
{
    lemma_manifest_canonical(a, b);
    lemma_tree_text_congruent(a.entries@, b.entries@);
}

/// The view of an optional string.
pub open spec fn opt_view(o: &Option<String>) -> Option<Seq<char>> {
    match o {
        Some(s) => Some(s@),
        None => None,
    }
}

/// The canonical text a commit's digest is computed over: parent,
/// trimmed message, timestamp, file count and tree digest, with fixed
/// separators.
pub open spec fn commit_text(parent: Option<Seq<char>>, message: Seq<char>, timestamp: int,
    file_count: int, tree: Seq<char>) -> Seq<char> {
    "parent: "@ + (match parent {
        Some(p) => p,
        None => Seq::empty(),
    }) + "\nmessage: "@ + message + "\ntimestamp: "@ + dec_rep(timestamp) + "\nfiles: "@ + dec_rep(
        file_count) + "\ntree: "@ + tree
}

/// A commit's digest: the digest of its canonical text.
pub open spec fn commit_digest_spec(parent: Option<Seq<char>>, message: Seq<char>, timestamp: int,
    file_count: int, tree: Seq<char>) -> Seq<char> {
    digest_of(encode_utf8(commit_text(parent, message, timestamp, file_count, tree)))
}

/// Compute a commit digest over canonical fields.  The message is
/// trimmed before hashing.
pub fn commit_digest(parent: &Option<String>, message: &str, timestamp: u64, file_count: usize,
    tree_hash: &str) -> (r: String)
    ensures
        r@ == commit_digest_spec(opt_view(parent), trim_spec(message@), timestamp as int,
            file_count as int, tree_hash@),
{
    let mut text = String::from_str("parent: ");
    match parent {
        Some(p) => {
            text.append(p.as_str());
        },
        None => {},
    }
    text.append("\nmessage: ");
    let trimmed = trim_str(message);
    text.append(trimmed);
    text.append("\ntimestamp: ");
    let ts = u64_to_string(timestamp);
    text.append(ts.as_str());
    text.append("\nfiles: ");
    let fc = u64_to_string(file_count as u64);
    text.append(fc.as_str());
    text.append("\ntree: ");
    text.append(tree_hash);
    proof {
        assert(text@ =~= commit_text(opt_view(parent), trim_spec(message@), timestamp as int,
            file_count as int, tree_hash@));
    }
    compute_chunk_hash(text.as_str().as_bytes())
}

/// Rehashing a stored commit reproduces its digest: the message was
/// trimmed when the commit was made, and trimming is idempotent, so the
/// same canonical text and digest come out again.
pub proof fn lemma_rehash_reproduces(parent: Option<Seq<char>>, message: Seq<char>,
    timestamp: int, file_count: int, tree: Seq<char>)
    ensures
        commit_digest_spec(parent, trim_spec(trim_spec(message)), timestamp, file_count, tree)
            == commit_digest_spec(parent, trim_spec(message), timestamp, file_count, tree),
{
    crate::strutil::lemma_trim_idempotent(message);
}

/// Build a commit from staging: fails with a repository error when
/// staging is empty and empty commits are not allowed; otherwise the
/// commit carries the staged files, the resolved parent, the trimmed
/// message, and digests computed over the canonical fields.
pub fn build_commit(files: ManifestMap, parent: Option<String>, message: &str, timestamp: u64,
    allow_empty: bool) -> (r: Result<CommitRecord, BlazeError>)
    requires
        files.wf(),
    ensures
        r is Err <==> files.entries@.len() == 0 && !allow_empty,
        r matches Err(e) ==> e is Repository,
        r matches Ok(c) ==> c.files == files && c.files.wf() && c.parent == parent && c.message@
            == trim_spec(message@) && c.timestamp == timestamp && c.tree_hash@ == tree_digest_spec(
            files.entries@) && c.hash@ == commit_digest_spec(opt_view(&parent), trim_spec(
            message@), timestamp as int, files.entries@.len() as int, tree_digest_spec(
            files.entries@)),
{
    if files.len() == 0 && !allow_empty {
        return Err(BlazeError::Repository(String::from_str(
            "No changes to commit (use --allow-empty to commit anyway)",
        )));
    }
    let tree_hash = create_tree_hash(&files);
    let file_count = files.len();
    let hash = commit_digest(&parent, message, timestamp, file_count, tree_hash.as_str());
    let trimmed = trim_str(message).to_owned();
    Ok(CommitRecord { hash, parent, message: trimmed, timestamp, tree_hash, files })
}

/// Whether one string opens with another.
pub open spec fn starts_with_spec(s: Seq<char>, prefix: Seq<char>) -> bool {
    s.len() >= prefix.len() && s.subrange(0, prefix.len() as int) == prefix
}

/// Resolve a (possibly partial) commit digest against a list of
/// (digest, timestamp) pairs: the most recent commit whose digest opens
/// with the prefix, or none when no digest matches.
pub fn resolve_commit_prefix(commits: &Vec<(String, u64)>, prefix: &str) -> (r: Option<usize>)
    ensures
        match r {
            Some(i) => i < commits@.len() && starts_with_spec(commits@[i as int].0@, prefix@)
                && forall|j: int| 0 <= j < commits@.len() && starts_with_spec(
                (#[trigger] commits@[j]).0@, prefix@) ==> commits@[j].1 <= commits@[i as int].1,
            None => forall|j: int| 0 <= j < commits@.len() ==> !starts_with_spec(
                (#[trigger] commits@[j]).0@, prefix@),
        },
{
    let mut best: Option<usize> = None;
    let mut i: usize = 0;
    while i < commits.len()
        invariant
            0 <= i <= commits@.len(),
            match best {
                Some(b) => b < i && starts_with_spec(commits@[b as int].0@, prefix@) && forall|
                j: int| 0 <= j < i && starts_with_spec((#[trigger] commits@[j]).0@, prefix@)
                    ==> commits@[j].1 <= commits@[b as int].1,
                None => forall|j: int| 0 <= j < i ==> !starts_with_spec((#[trigger] commits@[j]).0@,
                    prefix@),
            },
        decreases commits@.len() - i,
    {
        if crate::strutil::starts_with_str(commits[i].0.as_str(), prefix) {
            match best {
                Some(b) => {
                    if commits[i].1 > commits[b].1 {
                        best = Some(i);
                    }
                },
                None => {
                    best = Some(i);
                },
            }
        }
        i += 1;
    }
    best
}

} // verus!
