//! The walk over the manifests that depend on each other by path.
use vstd::prelude::*;

use crate::order::{self, Side};
use crate::text::{begins, texts, trimmed};
use crate::tooling::commands::copy_texts;
use crate::tooling::paths::{
    apart, conflict_message, conflicts, is_within, record_path_dependency_sync, recorded,
    remote_dependency, resolve_remote_dependency_dir, show_dir, shown, sync_views,
    PathDependencySync, SyncParts,
};

verus! {

/// Whether two directories are the same.
fn same_dir(a: &Vec<String>, b: &Vec<String>) -> (result: bool)
    ensures
        result == (texts(a@) == texts(b@)),
{
    let ghost x = texts(a@);
    let ghost y = texts(b@);
    proof {
        assert(x.take(x.len() as int) =~= x);
        assert(y.take(y.len() as int) =~= y);
    }
    is_within(a, b) && is_within(b, a)
}

/// Directories in order: by the first name that differs, a directory before
/// what lies in it.
pub open spec fn dir_precedes(a: Seq<Seq<char>>, b: Seq<Seq<char>>) -> bool
    decreases a.len(),
{
    if b.len() == 0 {
        false
    } else if a.len() == 0 {
        true
    } else if a[0] != b[0] {
        order::precedes(a[0], b[0])
    } else {
        dir_precedes(a.drop_first(), b.drop_first())
    }
}

/// No directory comes before itself.
pub proof fn law_dir_irreflexive(a: Seq<Seq<char>>)
    ensures
        !dir_precedes(a, a),
    decreases a.len(),
{
    if a.len() > 0 {
        law_dir_irreflexive(a.drop_first());
    }
}

/// The order of directories is transitive.
pub proof fn law_dir_transitive(a: Seq<Seq<char>>, b: Seq<Seq<char>>, c: Seq<Seq<char>>)
    requires
        dir_precedes(a, b),
        dir_precedes(b, c),
    ensures
        dir_precedes(a, c),
    decreases a.len(),
{
    if a.len() > 0 && b.len() > 0 && c.len() > 0 {
        if a[0] == b[0] && b[0] == c[0] {
            law_dir_transitive(a.drop_first(), b.drop_first(), c.drop_first());
        } else if a[0] != b[0] && b[0] != c[0] {
            order::law_precedes_transitive(a[0], b[0], c[0]);
            order::law_precedes_irreflexive(a[0]);
        }
    }
}

/// Compares two directories.
fn dir_side(a: &Vec<String>, b: &Vec<String>) -> (side: Side)
    ensures
        match side {
            Side::Before => dir_precedes(texts(a@), texts(b@)),
            Side::Same => texts(a@) == texts(b@),
            Side::After => dir_precedes(texts(b@), texts(a@)),
        },
{
    let ghost x = texts(a@);
    let ghost y = texts(b@);
    let mut i: usize = 0;
    assert(x.skip(0) =~= x && y.skip(0) =~= y);
    while i < a.len() && i < b.len()
        invariant
            x == texts(a@),
            y == texts(b@),
            i <= x.len(),
            i <= y.len(),
            dir_precedes(x, y) == dir_precedes(x.skip(i as int), y.skip(i as int)),
            dir_precedes(y, x) == dir_precedes(y.skip(i as int), x.skip(i as int)),
            x.take(i as int) == y.take(i as int),
        decreases a@.len() - i,
    {
        assert(x[i as int] == a@[i as int]@ && y[i as int] == b@[i as int]@);
        match order::side(a[i].as_str(), b[i].as_str()) {
            Side::Same => {},
            other => {
                return other;
            },
        }
        proof {
            assert(x.skip(i as int).drop_first() =~= x.skip(i + 1));
            assert(y.skip(i as int).drop_first() =~= y.skip(i + 1));
            assert(x.take(i + 1) =~= x.take(i as int).push(x[i as int]));
            assert(y.take(i + 1) =~= y.take(i as int).push(y[i as int]));
        }
        i = i + 1;
    }
    if i < b.len() {
        Side::Before
    } else if i < a.len() {
        Side::After
    } else {
        assert(x.take(i as int) =~= x && y.take(i as int) =~= y);
        Side::Same
    }
}

/// The order in which dependencies are copied: by remote directory, then by
/// local directory.
pub open spec fn sync_precedes(a: SyncParts, b: SyncParts) -> bool {
    ||| order::precedes(a.remote_dir, b.remote_dir)
    ||| a.remote_dir == b.remote_dir && dir_precedes(a.local_dir, b.local_dir)
}

/// Nothing comes before itself.
pub proof fn law_sync_irreflexive(a: SyncParts)
    ensures
        !sync_precedes(a, a),
{
    order::law_precedes_irreflexive(a.remote_dir);
    law_dir_irreflexive(a.local_dir);
}

/// The order of copies is transitive.
pub proof fn law_sync_transitive(a: SyncParts, b: SyncParts, c: SyncParts)
    requires
        sync_precedes(a, b),
        sync_precedes(b, c),
    ensures
        sync_precedes(a, c),
{
    if order::precedes(a.remote_dir, b.remote_dir) && order::precedes(
        b.remote_dir,
        c.remote_dir,
    ) {
        order::law_precedes_transitive(a.remote_dir, b.remote_dir, c.remote_dir);
    }
    if dir_precedes(a.local_dir, b.local_dir) && dir_precedes(b.local_dir, c.local_dir) {
        law_dir_transitive(a.local_dir, b.local_dir, c.local_dir);
    }
}

fn sync_side(a: &PathDependencySync, b: &PathDependencySync) -> (side: Side)
    ensures
        match side {
            Side::Before => sync_precedes(a@, b@),
            Side::Same => a@ == b@,
            Side::After => sync_precedes(b@, a@),
        },
{
    match order::side(a.remote_dir.as_str(), b.remote_dir.as_str()) {
        Side::Same => {},
        other => {
            return other;
        },
    }
    dir_side(&a.local_dir, &b.local_dir)
}

/// Nothing stands behind what it comes before.
pub open spec fn syncs_sorted(list: Seq<SyncParts>) -> bool {
    forall|i: int, j: int|
        0 <= i < j < list.len() ==> sync_precedes(#[trigger] list[i], #[trigger] list[j])
            || list[i] == list[j]
}

/// Puts an entry into a sorted list.
fn insert_sync(list: &mut Vec<PathDependencySync>, value: PathDependencySync)
    requires
        syncs_sorted(sync_views(old(list)@)),
    ensures
        syncs_sorted(sync_views(final(list)@)),
        sync_views(final(list)@).to_multiset() == sync_views(old(list)@).to_multiset().insert(
            value@,
        ),
{
    broadcast use vstd::seq_lib::group_to_multiset_ensures;

    let ghost before = sync_views(list@);
    let ghost new = value@;
    let mut i: usize = 0;
    while i < list.len()
        invariant
            list@ == old(list)@,
            before == sync_views(list@),
            new == value@,
            syncs_sorted(before),
            i <= list@.len(),
            forall|j: int|
                0 <= j < i ==> sync_precedes(#[trigger] before[j], new) || before[j] == new,
        ensures
            i < list@.len() ==> sync_precedes(new, before[i as int]),
        decreases list@.len() - i,
    {
        assert(before[i as int] == list@[i as int]@);
        match sync_side(&list[i], &value) {
            Side::After => {
                break;
            },
            _ => {},
        }
        i = i + 1;
    }
    list.insert(i, value);
    proof {
        let after = before.insert(i as int, new);
        assert(sync_views(list@) =~= after);
        assert forall|x: int, y: int| 0 <= x < y < after.len() implies sync_precedes(
            #[trigger] after[x],
            #[trigger] after[y],
        ) || after[x] == after[y] by {
            if y == i {
                assert(after[x] == before[x]);
            } else if x == i {
                assert(after[y] == before[y - 1]);
                if y - 1 > i {
                    assert(sync_precedes(before[i as int], before[y - 1]) || before[i as int]
                        == before[y - 1]);
                    if sync_precedes(before[i as int], before[y - 1]) {
                        law_sync_transitive(new, before[i as int], before[y - 1]);
                    }
                }
            } else {
                let a = if x < i {
                    x
                } else {
                    x - 1
                };
                let b = if y < i {
                    y
                } else {
                    y - 1
                };
                assert(after[x] == before[a] && after[y] == before[b]);
            }
        }
        after.to_multiset_ensures();
        assert(after.remove(i as int) =~= before);
        assert(after[i as int] == new);
        assert(after.contains(new));
        assert(after.to_multiset() =~= before.to_multiset().insert(new));
    }
}

/// A manifest that is still to be read, and where it is on the remote side.
pub struct Place {
    pub dir: Vec<String>,
    pub remote: String,
}

/// The contents of a `Place`.
pub struct PlaceParts {
    pub dir: Seq<Seq<char>>,
    pub remote: Seq<char>,
}

impl View for Place {
    type V = PlaceParts;

    open spec fn view(&self) -> PlaceParts {
        PlaceParts { dir: texts(self.dir@), remote: self.remote@ }
    }
}

/// The walk over the manifests, nearest first.
pub struct Discovery {
    places: Vec<Place>,
    next: usize,
    visited: Vec<Vec<String>>,
    syncs: Vec<PathDependencySync>,
}

impl Discovery {
    /// All places found so far, in the order in which they were found.
    pub closed spec fn places(&self) -> Seq<PlaceParts> {
        self.places@.map_values(|place: Place| place@)
    }

    /// How many of them have been looked at.
    pub closed spec fn seen(&self) -> int {
        self.next as int
    }

    /// The directories whose manifests have been handed out.
    pub closed spec fn visited(&self) -> Seq<Seq<Seq<char>>> {
        self.visited@.map_values(|dir: Vec<String>| texts(dir@))
    }

    /// The copies to make.
    pub closed spec fn syncs(&self) -> Seq<SyncParts> {
        sync_views(self.syncs@)
    }

    pub open spec fn wf(&self) -> bool {
        &&& 0 <= self.seen() <= self.places().len()
        &&& apart(self.syncs())
    }

    /// Starts at the repository.
    pub fn new(repo_root: Vec<String>, remote_repo_dir: &str) -> (discovery: Discovery)
        ensures
            discovery.wf(),
            discovery.places() == seq![
                (PlaceParts { dir: texts(repo_root@), remote: remote_repo_dir@ }),
            ],
            discovery.seen() == 0,
            discovery.visited().len() == 0,
            discovery.syncs().len() == 0,
    {
        let ghost root = texts(repo_root@);
        let mut places: Vec<Place> = Vec::new();
        places.push(Place { dir: repo_root, remote: remote_repo_dir.to_owned() });
        let discovery = Discovery { places, next: 0, visited: Vec::new(), syncs: Vec::new() };
        assert(discovery.places() =~= seq![(PlaceParts { dir: root, remote: remote_repo_dir@ })]);
        discovery
    }

    fn has_visited(&self, dir: &Vec<String>) -> (found: bool)
        ensures
            found == self.visited().contains(texts(dir@)),
    {
        let ghost all = self.visited();
        let mut i: usize = 0;
        while i < self.visited.len()
            invariant
                all == self.visited(),
                i <= self.visited@.len(),
                forall|j: int| 0 <= j < i ==> all[j] != texts(dir@),
            decreases self.visited@.len() - i,
        {
            assert(all[i as int] == texts(self.visited@[i as int]@));
            if same_dir(&self.visited[i], dir) {
                return true;
            }
            i = i + 1;
        }
        false
    }

    /// The next manifest to read: the first place not looked at yet whose
    /// directory has not been handed out.
    pub fn next_manifest(&mut self) -> (place: Option<Place>)
        requires
            old(self).wf(),
        ensures
            final(self).wf(),
            final(self).places() == old(self).places(),
            final(self).syncs() == old(self).syncs(),
            match place {
                Some(place) => {
                    let at = final(self).seen() - 1;
                    &&& old(self).seen() <= at < old(self).places().len()
                    &&& place@ == old(self).places()[at]
                    &&& !old(self).visited().contains(place@.dir)
                    &&& final(self).visited() == old(self).visited().push(place@.dir)
                    &&& forall|j: int|
                        old(self).seen() <= j < at ==> old(self).visited().contains(
                            (#[trigger] old(self).places()[j]).dir,
                        )
                },
                None => {
                    &&& final(self).seen() == old(self).places().len()
                    &&& final(self).visited() == old(self).visited()
                    &&& forall|j: int|
                        old(self).seen() <= j < old(self).places().len() ==> old(
                            self,
                        ).visited().contains((#[trigger] old(self).places()[j]).dir)
                },
            },
    {
        let ghost all = self.places();
        let ghost known = self.visited();
        let ghost start = self.seen();
        while self.next < self.places.len()
            invariant
                self.wf(),
                self.places() == all,
                self.visited() == known,
                self.syncs() == old(self).syncs(),
                all == old(self).places(),
                known == old(self).visited(),
                start == old(self).seen(),
                start <= self.seen(),
                forall|j: int| start <= j < self.seen() ==> known.contains((#[trigger] all[j]).dir),
            decreases self.places@.len() - self.next,
        {
            let at: usize = self.next;
            assert(all[at as int] == self.places@[at as int]@);
            self.next = at + 1;
            if !self.has_visited(&self.places[at].dir) {
                let dir = copy_texts(&self.places[at].dir);
                let place = Place {
                    dir: copy_texts(&self.places[at].dir),
                    remote: self.places[at].remote.clone(),
                };
                self.visited.push(dir);
                assert(self.visited() =~= known.push(place@.dir));
                return Some(place);
            }
        }
        None
    }

    /// Takes in a dependency that the manifest at `remote_manifest_dir` names
    /// by `dep_path` and that was found in `local_dir`.
    pub fn add_dependency(
        &mut self,
        remote_manifest_dir: &str,
        dep_path: &str,
        local_dir: Vec<String>,
    ) -> (result: Result<(), String>)
        requires
            old(self).wf(),
        ensures
            final(self).wf(),
            final(self).seen() == old(self).seen(),
            final(self).visited() == old(self).visited(),
            ({
                let path = trimmed(dep_path@);
                let remote = remote_dependency(remote_manifest_dir@, dep_path@);
                let sync = SyncParts { local_dir: texts(local_dir@), remote_dir: remote };
                match result {
                    Ok(_) => {
                        &&& path.len() > 0 && !begins(path, "/"@)
                        &&& forall|i: int| !conflicts(old(self).syncs(), sync, i)
                        &&& final(self).syncs() == recorded(old(self).syncs(), sync)
                        &&& final(self).places() == old(self).places().push(
                            PlaceParts { dir: texts(local_dir@), remote },
                        )
                    },
                    Err(message) => {
                        &&& final(self).syncs() == old(self).syncs()
                        &&& final(self).places() == old(self).places()
                        &&& if path.len() == 0 {
                            message@ == "cargo path dependency cannot be empty"@
                        } else if begins(path, "/"@) {
                            message@ == "absolute cargo path dependency '"@ + path
                                + "' is unsupported for remote sync"@
                        } else {
                            exists|i: int|
                                #![trigger conflicts(old(self).syncs(), sync, i)]
                                conflicts(old(self).syncs(), sync, i) && message@
                                    == conflict_message(
                                    sync.local_dir,
                                    old(self).syncs()[i].remote_dir,
                                    remote,
                                )
                        }
                    },
                }
            }),
    {
        let remote = match resolve_remote_dependency_dir(remote_manifest_dir, dep_path) {
            Ok(remote) => remote,
            Err(message) => {
                return Err(message);
            },
        };
        let ghost before = self.places();
        let sync = PathDependencySync {
            local_dir: copy_texts(&local_dir),
            remote_dir: remote.clone(),
        };
        match record_path_dependency_sync(&mut self.syncs, sync) {
            Ok(_) => {},
            Err(message) => {
                return Err(message);
            },
        }
        let place = Place { dir: local_dir, remote };
        let ghost new = place@;
        self.places.push(place);
        assert(self.places() =~= before.push(new));
        Ok(())
    }

    /// The copies to make, by remote directory.
    pub fn finish(self) -> (syncs: Vec<PathDependencySync>)
        requires
            self.wf(),
        ensures
            syncs_sorted(sync_views(syncs@)),
            sync_views(syncs@).to_multiset() == self.syncs().to_multiset(),
    {
        broadcast use vstd::seq_lib::group_to_multiset_ensures;

        let ghost all = self.syncs();
        let mut list: Vec<PathDependencySync> = Vec::new();
        let mut i: usize = 0;
        assert(sync_views(list@) =~= Seq::<SyncParts>::empty());
        assert(all.take(0) =~= Seq::<SyncParts>::empty());
        while i < self.syncs.len()
            invariant
                all == self.syncs(),
                i <= self.syncs@.len(),
                syncs_sorted(sync_views(list@)),
                sync_views(list@).to_multiset() == all.take(i as int).to_multiset(),
            decreases self.syncs@.len() - i,
        {
            assert(all[i as int] == self.syncs@[i as int]@);
            proof {
                all.take(i as int).to_multiset_ensures();
                assert(all.take(i + 1) =~= all.take(i as int).push(all[i as int]));
            }
            insert_sync(&mut list, self.syncs[i].copy());
            i = i + 1;
        }
        assert(all.take(i as int) =~= all);
        list
    }
}

/// The directory of a dependency whose path leads to `resolved`: a file stands
/// for the directory that holds it.
pub fn dependency_dir(dep_path: &str, resolved: &Vec<String>, is_file: bool) -> (result: Result<
    Vec<String>,
    String,
>)
    ensures
        match result {
            Ok(dir) => if is_file {
                resolved@.len() > 0 && texts(dir@) == texts(resolved@).drop_last()
            } else {
                texts(dir@) == texts(resolved@)
            },
            Err(message) => is_file && resolved@.len() == 0 && message@
                == "local cargo path dependency '"@ + dep_path@
                + "' resolved to file without parent: "@ + shown(texts(resolved@)),
        },
{
    let mut dir = copy_texts(resolved);
    if is_file {
        if resolved.len() == 0 {
            let mut message = "local cargo path dependency '".to_owned();
            message.append(dep_path);
            message.append("' resolved to file without parent: ");
            message.append(show_dir(resolved).as_str());
            return Err(message);
        }
        let ghost all = texts(dir@);
        let _name = dir.pop();
        assert(texts(dir@) =~= all.drop_last());
    }
    Ok(dir)
}

/// Fails where the directory of a dependency holds no manifest.
pub fn check_manifest(dep_path: &str, dir: &Vec<String>, has_manifest: bool) -> (result: Result<
    (),
    String,
>)
    ensures
        match result {
            Ok(_) => has_manifest,
            Err(message) => !has_manifest && message@ == "local cargo path dependency '"@ + dep_path@
                + "' resolved to "@ + shown(texts(dir@)) + " but "@ + shown(
                texts(dir@).push("Cargo.toml"@),
            ) + " is missing"@,
        },
{
    if has_manifest {
        return Ok(());
    }
    let mut manifest = copy_texts(dir);
    let ghost names = texts(manifest@);
    manifest.push("Cargo.toml".to_owned());
    assert(texts(manifest@) =~= names.push("Cargo.toml"@));
    let mut message = "local cargo path dependency '".to_owned();
    message.append(dep_path);
    message.append("' resolved to ");
    message.append(show_dir(dir).as_str());
    message.append(" but ");
    message.append(show_dir(&manifest).as_str());
    message.append(" is missing");
    Err(message)
}

} // verus!
