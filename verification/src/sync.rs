//! The synchronization engine's decisions, modelled over plain values: the
//! store root's state, the plans for initializing or migrating a store, the
//! ignore-file discipline for the index, and the history reconciliation that
//! clone/fetch/rebase/push perform. The collaborator that runs version
//! control executes these plans and hands their outcomes back.

use vstd::prelude::*;
use vstd::string::*;
use crate::entities::Item;
use crate::result::Error;
use crate::strutil::str_eq;

verus! {

/// The store root's synchronization state.
pub enum CanSync {
    /// A working tree with at least one remote: ready to sync.
    Yes,
    /// The root exists but is no working tree; carries the probe's message.
    NotConfigured(String),
    /// There is no store root at all.
    NoLocalCache,
    /// A working tree with no configured remote.
    NoRemotes,
}

/// What probing the store root for a working tree found.
pub enum RepoProbe {
    /// Opening the working tree failed, with the collaborator's message.
    NoRepository(String),
    /// The working tree opened, with this many configured remotes.
    Opened { remotes: usize },
}

/// Classifies the store root: absent roots, roots without version control,
/// working trees without remotes, and ready working trees.
pub fn can_sync_cache(cache_exists: bool, probe: &RepoProbe) -> (r: CanSync)
    ensures
        !cache_exists ==> r is NoLocalCache,
        cache_exists ==> match probe {
            RepoProbe::NoRepository(m) => r matches CanSync::NotConfigured(reason) && reason@
                == m@,
            RepoProbe::Opened { remotes } => if remotes == 0 {
                r is NoRemotes
            } else {
                r is Yes
            },
        },
{
    if !cache_exists {
        return CanSync::NoLocalCache;
    }
    match probe {
        RepoProbe::NoRepository(m) => CanSync::NotConfigured(m.clone()),
        RepoProbe::Opened { remotes } => {
            if *remotes == 0 {
                CanSync::NoRemotes
            } else {
                CanSync::Yes
            }
        },
    }
}

/// The clone that brings a remote's contents into a directory.
pub struct ClonePlan {
    /// The remote to clone from.
    pub url: String,
}

/// Decides the initialization of an empty store: refused when the store root
/// already exists; otherwise the remote is cloned into the root, the clone is
/// prepared, and the index is rebuilt.
pub fn init_sync_empty(cache_exists: bool, remote: &str) -> (r: Result<ClonePlan, Error>)
    ensures
        cache_exists ==> (r matches Err(e) && e is AlreadyExists),
        !cache_exists ==> (r matches Ok(p) && p.url@ == remote@),
{
    if cache_exists {
        Err(Error::AlreadyExists)
    } else {
        Ok(ClonePlan { url: remote.to_owned() })
    }
}

// ---------------------------------------------------------------------------
// History reconciliation
// ---------------------------------------------------------------------------

/// The length of the longest shared prefix of two histories.
pub open spec fn common_prefix_len(a: Seq<u64>, b: Seq<u64>) -> int
    decreases a.len(),
{
    if a.len() == 0 || b.len() == 0 || a[0] != b[0] {
        0
    } else {
        1 + common_prefix_len(a.skip(1), b.skip(1))
    }
}

/// A history rebased onto another: the other history, followed by the local
/// commits past the shared prefix, replayed in order.
pub open spec fn rebased(local: Seq<u64>, remote: Seq<u64>) -> Seq<u64> {
    remote + local.skip(common_prefix_len(local, remote))
}

proof fn lemma_common_prefix_at(a: Seq<u64>, b: Seq<u64>, c: int)
    requires
        0 <= c <= a.len(),
        c <= b.len(),
        forall|k: int| 0 <= k < c ==> a[k] == b[k],
        c == a.len() || c == b.len() || a[c] != b[c],
    ensures
        common_prefix_len(a, b) == c,
    decreases c,
{
    if c > 0 {
        assert(a[0] == b[0]);
        assert forall|k: int| 0 <= k < c - 1 implies a.skip(1)[k] == b.skip(1)[k] by {
            assert(a[k + 1] == b[k + 1]);
        }
        lemma_common_prefix_at(a.skip(1), b.skip(1), c - 1);
    }
}

fn copy_history(v: &Vec<u64>) -> (r: Vec<u64>)
    ensures
        r@ == v@,
{
    let mut r: Vec<u64> = Vec::new();
    let mut i: usize = 0;
    while i < v.len()
        invariant
            i <= v@.len(),
            r@ =~= v@.take(i as int),
        decreases v@.len() - i,
    {
        r.push(v[i]);
        i += 1;
    }
    proof {
        assert(r@ =~= v@);
    }
    r
}

/// Replays the local commits past the shared prefix on top of the remote
/// history, yielding a linear history with no merge commit.
pub fn rebase_history(local: &Vec<u64>, remote: &Vec<u64>) -> (r: Vec<u64>)
    ensures
        r@ == rebased(local@, remote@),
{
    let mut c: usize = 0;
    while c < local.len() && c < remote.len() && local[c] == remote[c]
        invariant
            c <= local@.len(),
            c <= remote@.len(),
            forall|k: int| 0 <= k < c ==> local@[k] == remote@[k],
        decreases local@.len() - c,
    {
        c += 1;
    }
    proof {
        lemma_common_prefix_at(local@, remote@, c as int);
    }
    let mut r = copy_history(remote);
    let mut j: usize = c;
    while j < local.len()
        invariant
            c <= j <= local@.len(),
            r@ =~= remote@ + local@.subrange(c as int, j as int),
        decreases local@.len() - j,
    {
        r.push(local[j]);
        j += 1;
    }
    proof {
        assert(local@.subrange(c as int, local@.len() as int) =~= local@.skip(c as int));
        assert(r@ =~= rebased(local@, remote@));
    }
    r
}

/// Whether the local history holds commits past its shared prefix with the
/// remote: commits the remote still lacks.
pub fn has_unpushed_commits(local: &Vec<u64>, remote: &Vec<u64>) -> (r: bool)
    ensures
        r == (common_prefix_len(local@, remote@) < local@.len()),
{
    let mut c: usize = 0;
    while c < local.len() && c < remote.len() && local[c] == remote[c]
        invariant
            c <= local@.len(),
            c <= remote@.len(),
            forall|k: int| 0 <= k < c ==> local@[k] == remote@[k],
        decreases local@.len() - c,
    {
        c += 1;
    }
    proof {
        lemma_common_prefix_at(local@, remote@, c as int);
    }
    c < local.len()
}

/// What the version-control collaborator reports for the rebase.
pub enum RebaseOutcome {
    /// The local commits replayed cleanly onto the fetched head.
    Completed,
    /// A textual or binary conflict arose; it is never auto-resolved.
    Conflict(String),
}

/// One reconciliation at the history level: when the working tree is dirty
/// the changes are committed first; the local branch is then rebased onto
/// the fetched remote head; a push publishes the result whenever a commit
/// was made or the local history already held commits the remote lacks, so
/// a sync that failed to push converges on the next run. A rebase conflict
/// is fatal: nothing moves and nothing is pushed. Returns the new local
/// history, the new remote history, and whether a push happened.
pub fn perform_sync(
    local: Vec<u64>,
    remote: Vec<u64>,
    dirty: bool,
    new_commit: u64,
    rebase: &RebaseOutcome,
) -> (r: Result<(Vec<u64>, Vec<u64>, bool), Error>)
    ensures
        ({
            let staged = if dirty {
                local@.push(new_commit)
            } else {
                local@
            };
            let owed = dirty || common_prefix_len(local@, remote@) < local@.len();
            match r {
                Ok(t) => {
                    &&& rebase is Completed
                    &&& t.0@ == rebased(staged, remote@)
                    &&& t.2 == owed
                    &&& t.1@ == if owed {
                        t.0@
                    } else {
                        remote@
                    }
                },
                Err(e) => {
                    &&& rebase matches RebaseOutcome::Conflict(m) && e matches
                        Error::RebaseConflict(reason) && reason@ == m@
                },
            }
        }),
{
    let owed = dirty || has_unpushed_commits(&local, &remote);
    let mut staged = local;
    if dirty {
        staged.push(new_commit);
    }
    match rebase {
        RebaseOutcome::Conflict(m) => Err(Error::RebaseConflict(m.clone())),
        RebaseOutcome::Completed => {
            let new_local = rebase_history(&staged, &remote);
            if owed {
                let pushed = copy_history(&new_local);
                Ok((new_local, pushed, true))
            } else {
                Ok((new_local, remote, false))
            }
        },
    }
}

/// Sync convergence: when the two histories share a base and then diverge,
/// rebasing replays the local commits after the remote ones, so both sides
/// end with the base, the remote commits, then the local commits.
pub proof fn lemma_sync_convergence(base: Seq<u64>, local_extra: Seq<u64>, remote_extra: Seq<u64>)
    requires
        local_extra.len() == 0 || remote_extra.len() == 0 || local_extra[0] != remote_extra[0],
    ensures
        rebased(base + local_extra, base + remote_extra) == base + remote_extra + local_extra,
{
    let a = base + local_extra;
    let b = base + remote_extra;
    assert forall|k: int| 0 <= k < base.len() implies a[k] == b[k] by {
        assert(a[k] == base[k] && b[k] == base[k]);
    }
    if local_extra.len() > 0 && remote_extra.len() > 0 {
        assert(a[base.len() as int] == local_extra[0]);
        assert(b[base.len() as int] == remote_extra[0]);
    }
    lemma_common_prefix_at(a, b, base.len() as int);
    assert(a.skip(base.len() as int) =~= local_extra);
    assert(rebased(a, b) =~= base + remote_extra + local_extra);
}

// ---------------------------------------------------------------------------
// Migration of an unmanaged store
// ---------------------------------------------------------------------------

/// What converting an unmanaged store into a tracked one requires.
pub enum MigrationPlan {
    /// No store root yet: behave exactly as an empty initialization.
    CloneFresh(ClonePlan),
    /// A root with no items: drop the directory, then clone fresh.
    DropAndClone(ClonePlan),
    /// Items exist: clone the remote aside, copy every item file into the
    /// clone, sync the clone, then replace the root with it and reindex.
    Migrate { url: String, files: Vec<String> },
}

/// Decides the conversion of an unmanaged store directory into a tracked
/// one. Items are never copied anywhere before the plan says so, and a
/// migration lists every live item file exactly once, in index order.
pub fn init_sync_existing(
    cache_exists: bool,
    is_repo: bool,
    items: &Vec<Item>,
    remote: &str,
) -> (r: Result<MigrationPlan, Error>)
    ensures
        !cache_exists ==> (r matches Ok(p) && p matches MigrationPlan::CloneFresh(c) && c.url@
            == remote@),
        cache_exists && is_repo ==> (r matches Err(e) && e is AlreadyInitialized),
        cache_exists && !is_repo && items@.len() == 0 ==> (r matches Ok(p) && p matches
            MigrationPlan::DropAndClone(c) && c.url@ == remote@),
        cache_exists && !is_repo && items@.len() > 0 ==> (r matches Ok(p) && p matches
            MigrationPlan::Migrate { url, files } && url@ == remote@ && files@.len()
            == items@.len() && (forall|i: int|
            0 <= i < items@.len() ==> #[trigger] files@[i]@ == items@[i]@.filename)),
{
    if !cache_exists {
        return Ok(MigrationPlan::CloneFresh(ClonePlan { url: remote.to_owned() }));
    }
    if is_repo {
        return Err(Error::AlreadyInitialized);
    }
    if items.len() == 0 {
        return Ok(MigrationPlan::DropAndClone(ClonePlan { url: remote.to_owned() }));
    }
    let mut files: Vec<String> = Vec::new();
    let mut i: usize = 0;
    while i < items.len()
        invariant
            i <= items@.len(),
            files@.len() == i,
            forall|k: int| 0 <= k < i ==> #[trigger] files@[k]@ == items@[k]@.filename,
        decreases items@.len() - i,
    {
        files.push(items[i].filename.clone());
        i += 1;
    }
    Ok(MigrationPlan::Migrate { url: remote.to_owned(), files })
}

/// Migration safety, as far as the model reaches: a migration plan copies
/// exactly the live items' files (fixed by `init_sync_existing`), and an
/// index rebuilt from those same items lists exactly their summaries — one
/// per item, same group, name and content address, values left for a later
/// load. The copying itself and the commit and push of the migrated files
/// are the version-control collaborator's work.
pub proof fn lemma_migration_preserves_items(items: Seq<Item>)
    requires
        forall|i: int| 0 <= i < items.len() ==> crate::store::wf_index_item(#[trigger] items[i]@),
    ensures
        crate::store::spec_parse_index(crate::store::index_encoding(items), 0) == Some(
            crate::store::summaries(items),
        ),
        crate::store::summaries(items).len() == items.len(),
        forall|i: int|
            0 <= i < items.len() ==> {
                let s = #[trigger] crate::store::summaries(items)[i];
                s.group == items[i]@.group && s.name == items[i]@.name && s.filename
                    == items[i]@.filename && s.value.len() == 0
            },
{
    crate::store::lemma_index_round_trip(items);
}

// ---------------------------------------------------------------------------
// The ignore file
// ---------------------------------------------------------------------------

/// Index of the first newline at or after `start`, or -1 if there is none.
pub open spec fn first_nl_from(s: Seq<char>, start: int) -> int
    recommends
        0 <= start <= s.len(),
    decreases s.len() - start when 0 <= start <= s.len()
{
    if start >= s.len() {
        -1
    } else if s[start] == '\n' {
        start
    } else {
        first_nl_from(s, start + 1)
    }
}

/// The lines of an ignore file, split at newlines; the final line needs no
/// terminator.
pub open spec fn split_lines(s: Seq<char>) -> Seq<Seq<char>>
    decreases s.len(),
{
    let i = first_nl_from(s, 0);
    if i < 0 {
        seq![s]
    } else if 0 <= i < s.len() {
        seq![s.subrange(0, i)] + split_lines(s.subrange(i + 1, s.len() as int))
    } else {
        seq![s]
    }
}

/// Whether the ignore file already excludes the index file.
pub open spec fn covers_index(s: Seq<char>) -> bool {
    split_lines(s).contains(".index"@)
}

proof fn lemma_first_nl_at(s: Seq<char>, start: int, i: int)
    requires
        0 <= start <= i < s.len(),
        s[i] == '\n',
        forall|k: int| start <= k < i ==> s[k] != '\n',
    ensures
        first_nl_from(s, start) == i,
    decreases i - start,
{
    if start < i {
        lemma_first_nl_at(s, start + 1, i);
    }
}

proof fn lemma_first_nl_none(s: Seq<char>, start: int)
    requires
        0 <= start <= s.len(),
        forall|k: int| start <= k < s.len() ==> s[k] != '\n',
    ensures
        first_nl_from(s, start) == -1,
    decreases s.len() - start,
{
    if start < s.len() {
        lemma_first_nl_none(s, start + 1);
    }
}

/// Whether the ignore file's lines already contain `.index`.
pub fn gitignore_covers_index(contents: &str) -> (r: bool)
    ensures
        r == covers_index(contents@),
    decreases contents@.len(),
{
    let len = contents.unicode_len();
    let mut i: usize = 0;
    while i < len && contents.get_char(i) != '\n'
        invariant
            i <= len,
            len == contents@.len(),
            forall|k: int| 0 <= k < i ==> contents@[k] != '\n',
        decreases len - i,
    {
        i += 1;
    }
    if i == len {
        proof {
            lemma_first_nl_none(contents@, 0);
            assert(split_lines(contents@) == seq![contents@]);
            assert(split_lines(contents@)[0] == contents@);
        }
        let whole = str_eq(contents, ".index");
        proof {
            if contents@ == ".index"@ {
                assert(split_lines(contents@).contains(".index"@));
            } else {
                assert forall|q: int|
                    0 <= q < split_lines(contents@).len() implies split_lines(contents@)[q]
                    != ".index"@ by {}
            }
        }
        whole
    } else {
        proof {
            lemma_first_nl_at(contents@, 0, i as int);
        }
        let line = contents.substring_char(0, i);
        let rest = contents.substring_char(i + 1, len);
        let ghost sl = split_lines(contents@);
        proof {
            assert(sl == seq![line@] + split_lines(rest@));
        }
        if str_eq(line, ".index") {
            proof {
                assert(sl[0] == ".index"@);
            }
            true
        } else {
            let found = gitignore_covers_index(rest);
            proof {
                if split_lines(rest@).contains(".index"@) {
                    let q = choose|q: int|
                        0 <= q < split_lines(rest@).len() && split_lines(rest@)[q] == ".index"@;
                    assert(sl[q + 1] == ".index"@);
                } else if sl.contains(".index"@) {
                    let q = choose|q: int| 0 <= q < sl.len() && sl[q] == ".index"@;
                    assert(q > 0);
                    assert(split_lines(rest@)[q - 1] == ".index"@);
                    assert(split_lines(rest@).contains(".index"@));
                }
            }
            found
        }
    }
}

/// The ignore file's contents with the index exclusion present: untouched
/// when already covered, else `.index` appended as a line of its own.
pub fn gitignore_with_index(contents: &str) -> (r: String)
    ensures
        covers_index(contents@) ==> r@ == contents@,
        !covers_index(contents@) ==> r@ == (if contents@.len() == 0 {
            ".index\n"@
        } else if contents@.last() == '\n' {
            contents@ + ".index\n"@
        } else {
            contents@ + "\n.index\n"@
        }),
{
    if gitignore_covers_index(contents) {
        return contents.to_owned();
    }
    let len = contents.unicode_len();
    if len == 0 {
        let r = String::from_str(".index\n");
        return r;
    }
    let mut r = contents.to_owned();
    if contents.get_char(len - 1) == '\n' {
        r.append(".index\n");
    } else {
        r.append("\n.index\n");
    }
    r
}

} // verus!
