//! Where path dependencies go on a remote machine.
use vstd::prelude::*;

use crate::text::{
    begins, chars_of, join, joined, same, split, split_on, starts_with, string_of, strip_prefix,
    texts, trim, trimmed,
};
use crate::tooling::commands::{
    copy_texts, push_word, rsync_dir, rsync_place, ResolvedMachine,
};
use crate::tooling::fleet::{cd_argument, remote_cd_expr, trim_end_slashes, without_trailing_slashes};

verus! {

/// What a remote path starts from.
#[derive(Clone, Copy, Debug, PartialEq, Eq, Structural)]
pub enum RemotePathBase {
    Home,
    Absolute,
    Relative,
}

/// The parts of a path that are not empty; with `no_dots` also without those
/// that mean the same directory.
pub open spec fn steps(parts: Seq<Seq<char>>, no_dots: bool) -> Seq<Seq<char>>
    decreases parts.len(),
{
    if parts.len() == 0 {
        Seq::empty()
    } else {
        let rest = steps(parts.drop_last(), no_dots);
        if parts.last().len() == 0 || (no_dots && parts.last() == "."@) {
            rest
        } else {
            rest.push(parts.last())
        }
    }
}

fn path_steps(path: &str, no_dots: bool) -> (list: Vec<String>)
    ensures
        texts(list@) == steps(split(path@, '/'), no_dots),
{
    let parts = split_on(path, '/');
    let ghost all = texts(parts@);
    let mut list: Vec<String> = Vec::new();
    let mut i: usize = 0;
    assert(all.take(0) =~= Seq::<Seq<char>>::empty());
    assert(texts(list@) =~= Seq::<Seq<char>>::empty());
    while i < parts.len()
        invariant
            all == texts(parts@),
            i <= parts@.len(),
            texts(list@) == steps(all.take(i as int), no_dots),
        decreases parts@.len() - i,
    {
        proof {
            assert(all.take(i + 1).drop_last() =~= all.take(i as int));
            assert(all.take(i + 1).last() == parts@[i as int]@);
        }
        let part = parts[i].as_str();
        if chars_of(part).len() > 0 && !(no_dots && same(part, ".")) {
            push_word(&mut list, part);
        }
        i = i + 1;
    }
    assert(all.take(i as int) =~= all);
    list
}

/// What a path starts from.
pub open spec fn base_kind(base: Seq<char>) -> RemotePathBase {
    if base == "~"@ || begins(base, "~/"@) {
        RemotePathBase::Home
    } else if begins(base, "/"@) {
        RemotePathBase::Absolute
    } else {
        RemotePathBase::Relative
    }
}

/// The directories of a path, from its start.
pub open spec fn base_steps(base: Seq<char>) -> Seq<Seq<char>> {
    if base == "~"@ {
        Seq::empty()
    } else if begins(base, "~/"@) {
        steps(split(base.skip("~/"@.len() as int), '/'), false)
    } else if begins(base, "/"@) {
        steps(split(base.skip("/"@.len() as int), '/'), false)
    } else {
        steps(split(base, '/'), true)
    }
}

/// A place relative to a start: first so many times to the parent, then down.
pub struct Walk {
    pub up: nat,
    pub down: Seq<Seq<char>>,
}

/// One step of a walk. At the root there is no parent to go to.
pub open spec fn walk_step(at: Walk, rooted: bool, step: Seq<char>) -> Walk {
    if step == ".."@ {
        if at.down.len() > 0 {
            Walk { up: at.up, down: at.down.drop_last() }
        } else if rooted {
            at
        } else {
            Walk { up: at.up + 1, down: at.down }
        }
    } else {
        Walk { up: at.up, down: at.down.push(step) }
    }
}

/// A walk along several steps.
pub open spec fn walk(from: Walk, rooted: bool, path: Seq<Seq<char>>) -> Walk
    decreases path.len(),
{
    if path.len() == 0 {
        from
    } else {
        walk_step(walk(from, rooted, path.drop_last()), rooted, path.last())
    }
}

/// A step down and a step back up end where they began.
pub proof fn law_down_and_up_cancel(at: Walk, rooted: bool, step: Seq<char>)
    requires
        step != ".."@,
    ensures
        walk_step(walk_step(at, rooted, step), rooted, ".."@) == at,
{
    assert(at.down.push(step).drop_last() =~= at.down);
}

/// Walking along a path and on along another is walking along both.
pub proof fn law_walks_join(
    from: Walk,
    rooted: bool,
    first: Seq<Seq<char>>,
    second: Seq<Seq<char>>,
)
    ensures
        walk(walk(from, rooted, first), rooted, second) == walk(from, rooted, first + second),
    decreases second.len(),
{
    if second.len() == 0 {
        assert(first + second =~= first);
    } else {
        law_walks_join(from, rooted, first, second.drop_last());
        assert((first + second).drop_last() =~= first + second.drop_last());
        assert((first + second).last() == second.last());
    }
}

/// The directories to go through for a walk.
pub open spec fn walk_steps(at: Walk) -> Seq<Seq<char>> {
    Seq::new(at.up, |i: int| ".."@) + at.down
}

/// A path as text.
pub open spec fn rendered(kind: RemotePathBase, list: Seq<Seq<char>>) -> Seq<char> {
    match kind {
        RemotePathBase::Home => if list.len() == 0 {
            "~"@
        } else {
            "~/"@ + joined(list, "/"@)
        },
        RemotePathBase::Absolute => if list.len() == 0 {
            "/"@
        } else {
            "/"@ + joined(list, "/"@)
        },
        RemotePathBase::Relative => if list.len() == 0 {
            "."@
        } else {
            joined(list, "/"@)
        },
    }
}

/// The remote directory of a dependency that a manifest in `base` gives by the
/// relative path `path`.
pub open spec fn remote_dependency(base: Seq<char>, path: Seq<char>) -> Seq<char> {
    let start = trimmed(base);
    let kind = base_kind(start);
    let end = walk(
        Walk { up: 0, down: base_steps(start) },
        kind == RemotePathBase::Absolute,
        steps(split(trimmed(path), '/'), true),
    );
    rendered(kind, walk_steps(end))
}

fn start_of(base: &str) -> (start: (RemotePathBase, Vec<String>))
    ensures
        start.0 == base_kind(base@),
        texts(start.1@) == base_steps(base@),
{
    if same(base, "~") {
        let list: Vec<String> = Vec::new();
        assert(texts(list@) =~= Seq::<Seq<char>>::empty());
        return (RemotePathBase::Home, list);
    }
    if let Some(tail) = strip_prefix(base, "~/") {
        return (RemotePathBase::Home, path_steps(tail.as_str(), false));
    }
    if let Some(tail) = strip_prefix(base, "/") {
        return (RemotePathBase::Absolute, path_steps(tail.as_str(), false));
    }
    (RemotePathBase::Relative, path_steps(base, true))
}

fn render(kind: RemotePathBase, list: &Vec<String>) -> (text: String)
    ensures
        text@ == rendered(kind, texts(list@)),
{
    let ghost all = texts(list@);
    assert(all.len() == list@.len());
    let path = join(list, "/");
    match kind {
        RemotePathBase::Home => {
            if list.len() == 0 {
                return "~".to_owned();
            }
            let mut text = "~/".to_owned();
            text.append(path.as_str());
            text
        },
        RemotePathBase::Absolute => {
            if list.len() == 0 {
                return "/".to_owned();
            }
            let mut text = "/".to_owned();
            text.append(path.as_str());
            text
        },
        RemotePathBase::Relative => {
            if list.len() == 0 {
                return ".".to_owned();
            }
            path
        },
    }
}

/// Finds the remote directory of a path dependency. Paths are those of Unix; a
/// blank path and an absolute one are refused.
pub fn resolve_remote_dependency_dir(base: &str, dep_path: &str) -> (result: Result<String, String>)
    ensures
        match result {
            Ok(dir) => {
                &&& trimmed(dep_path@).len() > 0
                &&& !begins(trimmed(dep_path@), "/"@)
                &&& dir@ == remote_dependency(base@, dep_path@)
            },
            Err(message) => if trimmed(dep_path@).len() == 0 {
                message@ == "cargo path dependency cannot be empty"@
            } else {
                &&& begins(trimmed(dep_path@), "/"@)
                &&& message@ == "absolute cargo path dependency '"@ + trimmed(dep_path@)
                    + "' is unsupported for remote sync"@
            },
        },
{
    let path = trim(dep_path);
    if chars_of(path.as_str()).len() == 0 {
        return Err("cargo path dependency cannot be empty".to_owned());
    }
    if starts_with(path.as_str(), "/") {
        let mut message = "absolute cargo path dependency '".to_owned();
        message.append(path.as_str());
        message.append("' is unsupported for remote sync");
        return Err(message);
    }
    let start = trim(base);
    let (kind, mut down) = start_of(start.as_str());
    let parts = path_steps(path.as_str(), true);
    let ghost all = texts(parts@);
    let rooted = match kind {
        RemotePathBase::Absolute => true,
        _ => false,
    };
    let ghost from = Walk { up: 0, down: texts(down@) };
    let mut up: usize = 0;
    let mut i: usize = 0;
    assert(all.take(0) =~= Seq::<Seq<char>>::empty());
    while i < parts.len()
        invariant
            all == texts(parts@),
            i <= parts@.len(),
            up <= i,
            walk(from, rooted, all.take(i as int)) == (Walk { up: up as nat, down: texts(down@) }),
        decreases parts@.len() - i,
    {
        let ghost before = texts(down@);
        proof {
            assert(all.take(i + 1).drop_last() =~= all.take(i as int));
            assert(all.take(i + 1).last() == parts@[i as int]@);
        }
        if same(parts[i].as_str(), "..") {
            if down.len() > 0 {
                let _ = down.pop();
                assert(texts(down@) =~= before.drop_last());
            } else {
                assert(before.len() == 0);
                if !rooted {
                    up = up + 1;
                }
            }
        } else {
            push_word(&mut down, parts[i].as_str());
        }
        i = i + 1;
    }
    assert(all.take(i as int) =~= all);
    let ghost end = Walk { up: up as nat, down: texts(down@) };
    let mut list: Vec<String> = Vec::new();
    let mut k: usize = 0;
    while k < up
        invariant
            k <= up,
            texts(list@) == Seq::new(k as nat, |j: int| ".."@),
        decreases up - k,
    {
        push_word(&mut list, "..");
        k = k + 1;
        assert(texts(list@) =~= Seq::new(k as nat, |j: int| ".."@));
    }
    let ghost front = texts(list@);
    let ghost rest = texts(down@);
    list.append(&mut down);
    assert(texts(list@) =~= front + rest);
    assert(texts(list@) =~= walk_steps(end));
    Ok(render(kind, &list))
}

/// Where a character occurs last, -1 if nowhere.
pub open spec fn find_last(s: Seq<char>, c: char) -> int
    decreases s.len(),
{
    if s.len() == 0 {
        -1
    } else if s.last() == c {
        s.len() - 1
    } else {
        find_last(s.drop_last(), c)
    }
}

/// The directory that holds a remote path.
pub open spec fn parent_of(path: Seq<char>) -> Seq<char> {
    let core = trim_end_slashes(trimmed(path));
    let at = find_last(core, '/');
    if core.len() == 0 || core == "~"@ || core == "/"@ {
        core
    } else if at == 0 {
        "/"@
    } else if at > 0 {
        core.take(at)
    } else {
        "."@
    }
}

pub fn remote_parent_dir(path: &str) -> (dir: String)
    ensures
        dir@ == parent_of(path@),
{
    let text = trim(path);
    let core = without_trailing_slashes(text.as_str());
    let chars = chars_of(core.as_str());
    if chars.len() == 0 || same(core.as_str(), "~") || same(core.as_str(), "/") {
        return core;
    }
    let mut end: usize = chars.len();
    assert(core@.take(end as int) =~= core@);
    while end > 0 && chars[end - 1] != '/'
        invariant
            chars@ == core@,
            end <= chars@.len(),
            find_last(core@, '/') == find_last(core@.take(end as int), '/'),
        decreases end,
    {
        assert(core@.take(end as int).last() == chars@[end - 1]);
        assert(core@.take(end as int).drop_last() =~= core@.take(end - 1));
        end = end - 1;
    }
    if end == 0 {
        assert(find_last(core@, '/') == -1);
        return ".".to_owned();
    }
    assert(core@.take(end as int).last() == '/');
    assert(find_last(core@, '/') == end - 1);
    if end == 1 {
        return "/".to_owned();
    }
    let dir = string_of(&chars, 0, end - 1);
    assert(dir@ =~= core@.take(end - 1));
    dir
}

/// A local directory, by the names from the root down, and where it goes.
pub struct PathDependencySync {
    pub local_dir: Vec<String>,
    pub remote_dir: String,
}

/// The contents of a `PathDependencySync`.
pub struct SyncParts {
    pub local_dir: Seq<Seq<char>>,
    pub remote_dir: Seq<char>,
}

impl View for PathDependencySync {
    type V = SyncParts;

    open spec fn view(&self) -> SyncParts {
        SyncParts { local_dir: texts(self.local_dir@), remote_dir: self.remote_dir@ }
    }
}

impl PathDependencySync {
    pub(crate) fn copy(&self) -> (sync: PathDependencySync)
        ensures
            sync@ == self@,
    {
        PathDependencySync {
            local_dir: copy_texts(&self.local_dir),
            remote_dir: self.remote_dir.clone(),
        }
    }
}

/// A local directory as text.
pub open spec fn shown(dir: Seq<Seq<char>>) -> Seq<char> {
    "/"@ + joined(dir, "/"@)
}

pub fn show_dir(dir: &Vec<String>) -> (text: String)
    ensures
        text@ == shown(texts(dir@)),
{
    let path = join(dir, "/");
    let mut text = "/".to_owned();
    text.append(path.as_str());
    text
}

/// The command that copies a dependency to a machine.
pub open spec fn dependency_words(machine: ResolvedMachine, sync: SyncParts) -> Seq<Seq<char>> {
    seq![
        "rsync"@,
        "-avz"@,
        "--delete"@,
        "--exclude=.git/"@,
        "--exclude=target/"@,
        "--rsync-path"@,
        "mkdir -p "@ + cd_argument(parent_of(sync.remote_dir)) + " && rsync"@,
        shown(sync.local_dir) + "/"@,
        rsync_dir(machine, sync.remote_dir),
    ]
}

pub fn build_path_dep_sync_cmd(machine: &ResolvedMachine, sync: &PathDependencySync) -> (cmd: Vec<
    String,
>)
    ensures
        texts(cmd@) == dependency_words(*machine, sync@),
{
    let parent = remote_parent_dir(sync.remote_dir.as_str());
    let dir = remote_cd_expr(parent.as_str());
    let mut make = "mkdir -p ".to_owned();
    make.append(dir.as_str());
    make.append(" && rsync");
    let mut local = show_dir(&sync.local_dir);
    local.append("/");
    let place = rsync_place(machine, sync.remote_dir.as_str());
    let mut cmd: Vec<String> = Vec::new();
    push_word(&mut cmd, "rsync");
    push_word(&mut cmd, "-avz");
    push_word(&mut cmd, "--delete");
    push_word(&mut cmd, "--exclude=.git/");
    push_word(&mut cmd, "--exclude=target/");
    push_word(&mut cmd, "--rsync-path");
    push_word(&mut cmd, make.as_str());
    push_word(&mut cmd, local.as_str());
    push_word(&mut cmd, place.as_str());
    assert(texts(cmd@) =~= dependency_words(*machine, sync@));
    cmd
}

/// Directory `inner` is `outer` or lies in it.
pub open spec fn within(inner: Seq<Seq<char>>, outer: Seq<Seq<char>>) -> bool {
    outer.len() <= inner.len() && inner.take(outer.len() as int) == outer
}

pub fn is_within(inner: &Vec<String>, outer: &Vec<String>) -> (inside: bool)
    ensures
        inside == within(texts(inner@), texts(outer@)),
{
    let ghost a = texts(inner@);
    let ghost b = texts(outer@);
    if outer.len() > inner.len() {
        assert(b.len() > a.len());
        return false;
    }
    let mut i: usize = 0;
    while i < outer.len()
        invariant
            a == texts(inner@),
            b == texts(outer@),
            outer@.len() <= inner@.len(),
            i <= outer@.len(),
            forall|j: int| 0 <= j < i ==> a[j] == b[j],
        decreases outer@.len() - i,
    {
        assert(a[i as int] == inner@[i as int]@ && b[i as int] == outer@[i as int]@);
        if !same(inner[i].as_str(), outer[i].as_str()) {
            assert(a.take(b.len() as int)[i as int] != b[i as int]);
            return false;
        }
        i = i + 1;
    }
    assert(a.take(b.len() as int) =~= b);
    true
}

/// The contents of a list.
pub open spec fn sync_views(list: Seq<PathDependencySync>) -> Seq<SyncParts> {
    list.map_values(|sync: PathDependencySync| sync@)
}

/// No directory of the list lies in another.
pub open spec fn apart(list: Seq<SyncParts>) -> bool {
    forall|i: int, j: int|
        0 <= i < list.len() && 0 <= j < list.len() && i != j ==> !within(
            (#[trigger] list[i]).local_dir,
            (#[trigger] list[j]).local_dir,
        )
}

/// Some directory of the list holds `dir`.
pub open spec fn covered(list: Seq<SyncParts>, dir: Seq<Seq<char>>) -> bool {
    exists|i: int| 0 <= i < list.len() && within(dir, (#[trigger] list[i]).local_dir)
}

/// The entries that do not lie in `dir`.
pub open spec fn outside(list: Seq<SyncParts>, dir: Seq<Seq<char>>) -> Seq<SyncParts>
    decreases list.len(),
{
    if list.len() == 0 {
        Seq::empty()
    } else {
        let rest = outside(list.drop_last(), dir);
        if within(list.last().local_dir, dir) {
            rest
        } else {
            rest.push(list.last())
        }
    }
}

/// The list with one more entry: unchanged if its directory is copied anyway,
/// else without those that it makes superfluous.
pub open spec fn recorded(list: Seq<SyncParts>, candidate: SyncParts) -> Seq<SyncParts> {
    if covered(list, candidate.local_dir) {
        list
    } else {
        outside(list, candidate.local_dir).push(candidate)
    }
}

/// Entry `i` is the first for the same directory, but goes elsewhere.
pub open spec fn conflicts(list: Seq<SyncParts>, candidate: SyncParts, i: int) -> bool {
    &&& 0 <= i < list.len()
    &&& list[i].local_dir == candidate.local_dir
    &&& list[i].remote_dir != candidate.remote_dir
    &&& forall|j: int| 0 <= j < i ==> (#[trigger] list[j]).local_dir != candidate.local_dir
}

pub open spec fn conflict_message(
    dir: Seq<Seq<char>>,
    first: Seq<char>,
    second: Seq<char>,
) -> Seq<char> {
    "local cargo path dependency "@ + shown(dir) + " mapped to conflicting remote paths '"@ + first
        + "' and '"@ + second + "'"@
}

proof fn lemma_outside(list: Seq<SyncParts>, dir: Seq<Seq<char>>)
    ensures
        forall|i: int|
            0 <= i < outside(list, dir).len() ==> {
                &&& !within((#[trigger] outside(list, dir)[i]).local_dir, dir)
                &&& list.contains(outside(list, dir)[i])
            },
        forall|i: int|
            0 <= i < list.len() && !within((#[trigger] list[i]).local_dir, dir) ==> outside(
                list,
                dir,
            ).contains(list[i]),
    decreases list.len(),
{
    if list.len() > 0 {
        let rest = list.drop_last();
        lemma_outside(rest, dir);
        let few = outside(rest, dir);
        let all = outside(list, dir);
        assert forall|i: int| 0 <= i < all.len() implies {
            &&& !within((#[trigger] all[i]).local_dir, dir)
            &&& list.contains(all[i])
        } by {
            if i < few.len() {
                assert(all[i] == few[i]);
                let k = rest.index_of(few[i]);
                assert(list[k] == all[i]);
            } else {
                assert(all[i] == list.last());
            }
        }
        assert forall|i: int|
            0 <= i < list.len() && !within((#[trigger] list[i]).local_dir, dir) implies all.contains(
            list[i],
        ) by {
            if i < rest.len() {
                assert(rest[i] == list[i]);
                let k = few.index_of(list[i]);
                assert(all[k] == list[i]);
            } else {
                assert(all[few.len() as int] == list[i]);
            }
        }
    }
}

proof fn lemma_outside_apart(list: Seq<SyncParts>, dir: Seq<Seq<char>>)
    requires
        apart(list),
    ensures
        apart(outside(list, dir)),
    decreases list.len(),
{
    if list.len() > 0 {
        let rest = list.drop_last();
        assert forall|i: int, j: int|
            0 <= i < rest.len() && 0 <= j < rest.len() && i != j implies !within(
            (#[trigger] rest[i]).local_dir,
            (#[trigger] rest[j]).local_dir,
        ) by {
            assert(!within(list[i].local_dir, list[j].local_dir));
        }
        lemma_outside_apart(rest, dir);
        lemma_outside(rest, dir);
        let few = outside(rest, dir);
        let all = outside(list, dir);
        let n = list.len() - 1;
        assert forall|i: int, j: int|
            0 <= i < all.len() && 0 <= j < all.len() && i != j implies !within(
            (#[trigger] all[i]).local_dir,
            (#[trigger] all[j]).local_dir,
        ) by {
            if i < few.len() && j < few.len() {
                assert(all[i] == few[i] && all[j] == few[j]);
            } else if i < few.len() {
                assert(all[i] == few[i]);
                let k = rest.index_of(few[i]);
                assert(list[k] == all[i] && list[n] == all[j]);
            } else {
                assert(all[j] == few[j]);
                let k = rest.index_of(few[j]);
                assert(list[k] == all[j] && list[n] == all[i]);
            }
        }
    }
}

/// Recording keeps the directories apart.
pub proof fn law_recording_keeps_apart(list: Seq<SyncParts>, candidate: SyncParts)
    requires
        apart(list),
    ensures
        apart(recorded(list, candidate)),
{
    let dir = candidate.local_dir;
    if !covered(list, dir) {
        lemma_outside(list, dir);
        lemma_outside_apart(list, dir);
        let few = outside(list, dir);
        let all = few.push(candidate);
        assert forall|i: int, j: int|
            0 <= i < all.len() && 0 <= j < all.len() && i != j implies !within(
            (#[trigger] all[i]).local_dir,
            (#[trigger] all[j]).local_dir,
        ) by {
            if i < few.len() && j < few.len() {
                assert(all[i] == few[i] && all[j] == few[j]);
            } else if i < few.len() {
                assert(all[i] == few[i]);
            } else {
                assert(all[j] == few[j]);
                let k = list.index_of(few[j]);
                assert(list[k] == few[j]);
                assert(!within(dir, list[k].local_dir));
            }
        }
    }
}

/// What was copied is still copied after recording, and so is the new
/// directory.
pub proof fn law_recording_covers(
    list: Seq<SyncParts>,
    candidate: SyncParts,
    dir: Seq<Seq<char>>,
)
    requires
        covered(list, dir) || within(dir, candidate.local_dir),
    ensures
        covered(recorded(list, candidate), dir),
{
    let new_dir = candidate.local_dir;
    let after = recorded(list, candidate);
    if covered(list, new_dir) {
        if !covered(list, dir) {
            let i = choose|i: int|
                0 <= i < list.len() && within(new_dir, (#[trigger] list[i]).local_dir);
            lemma_within(dir, new_dir, list[i].local_dir);
            assert(within(dir, list[i].local_dir));
        }
    } else {
        let few = outside(list, new_dir);
        assert(after[few.len() as int] == candidate);
        if !within(dir, new_dir) {
            let i = choose|i: int|
                0 <= i < list.len() && within(dir, (#[trigger] list[i]).local_dir);
            if within(list[i].local_dir, new_dir) {
                lemma_within(dir, list[i].local_dir, new_dir);
            } else {
                lemma_outside(list, new_dir);
                let k = few.index_of(list[i]);
                assert(after[k] == list[i]);
            }
        }
    }
}

proof fn lemma_within(a: Seq<Seq<char>>, b: Seq<Seq<char>>, c: Seq<Seq<char>>)
    requires
        within(a, b),
        within(b, c),
    ensures
        within(a, c),
{
    assert(a.take(c.len() as int) =~= b.take(c.len() as int));
}

/// Adds a dependency to the list of copies.
pub fn record_path_dependency_sync(
    syncs: &mut Vec<PathDependencySync>,
    candidate: PathDependencySync,
) -> (result: Result<(), String>)
    ensures
        apart(sync_views(old(syncs)@)) ==> apart(sync_views(final(syncs)@)),
        match result {
            Ok(_) => {
                &&& forall|i: int| !conflicts(sync_views(old(syncs)@), candidate@, i)
                &&& sync_views(final(syncs)@) == recorded(sync_views(old(syncs)@), candidate@)
            },
            Err(message) => {
                &&& sync_views(final(syncs)@) == sync_views(old(syncs)@)
                &&& exists|i: int|
                    #![trigger conflicts(sync_views(old(syncs)@), candidate@, i)]
                    conflicts(sync_views(old(syncs)@), candidate@, i) && message@
                        == conflict_message(
                        candidate@.local_dir,
                        sync_views(old(syncs)@)[i].remote_dir,
                        candidate@.remote_dir,
                    )
            },
        },
{
    let ghost list = sync_views(syncs@);
    let ghost new = candidate@;
    proof {
        if apart(list) {
            law_recording_keeps_apart(list, new);
        }
    }
    let mut i: usize = 0;
    while i < syncs.len()
        invariant
            syncs@ == old(syncs)@,
            list == sync_views(syncs@),
            new == candidate@,
            i <= syncs@.len(),
            forall|j: int| 0 <= j < i ==> (#[trigger] list[j]).local_dir != new.local_dir,
        decreases syncs@.len() - i,
    {
        assert(list[i as int] == syncs@[i as int]@);
        let forward = is_within(&candidate.local_dir, &syncs[i].local_dir);
        let backward = is_within(&syncs[i].local_dir, &candidate.local_dir);
        if forward && backward {
            proof {
                let a = new.local_dir;
                let b = list[i as int].local_dir;
                assert(a.len() == b.len());
                assert(a.take(b.len() as int) =~= a);
                assert(a == b);
            }
            if !same(syncs[i].remote_dir.as_str(), candidate.remote_dir.as_str()) {
                let dir = show_dir(&candidate.local_dir);
                let mut message = "local cargo path dependency ".to_owned();
                message.append(dir.as_str());
                message.append(" mapped to conflicting remote paths '");
                message.append(syncs[i].remote_dir.as_str());
                message.append("' and '");
                message.append(candidate.remote_dir.as_str());
                message.append("'");
                assert(conflicts(list, new, i as int));
                return Err(message);
            }
            assert(covered(list, new.local_dir));
            assert forall|k: int| !conflicts(list, new, k) by {
                if conflicts(list, new, k) {
                    if k < i {
                        assert(list[k].local_dir != new.local_dir);
                    }
                    assert(list[i as int].local_dir == new.local_dir);
                }
            }
            return Ok(());
        }
        assert(list[i as int].local_dir != new.local_dir) by {
            if list[i as int].local_dir == new.local_dir {
                let a = new.local_dir;
                assert(a.take(a.len() as int) =~= a);
            }
        }
        i = i + 1;
    }
    assert forall|k: int| !conflicts(list, new, k) by {}
    let mut i: usize = 0;
    while i < syncs.len()
        invariant
            syncs@ == old(syncs)@,
            list == sync_views(syncs@),
            new == candidate@,
            forall|k: int| !conflicts(list, new, k),
            i <= syncs@.len(),
            forall|j: int| 0 <= j < i ==> !within(new.local_dir, (#[trigger] list[j]).local_dir),
        decreases syncs@.len() - i,
    {
        assert(list[i as int] == syncs@[i as int]@);
        if is_within(&candidate.local_dir, &syncs[i].local_dir) {
            assert(covered(list, new.local_dir));
            return Ok(());
        }
        i = i + 1;
    }
    let mut kept: Vec<PathDependencySync> = Vec::new();
    let mut i: usize = 0;
    assert(list.take(0) =~= Seq::<SyncParts>::empty());
    assert(sync_views(kept@) =~= Seq::<SyncParts>::empty());
    while i < syncs.len()
        invariant
            list == sync_views(syncs@),
            new == candidate@,
            i <= syncs@.len(),
            sync_views(kept@) == outside(list.take(i as int), new.local_dir),
        decreases syncs@.len() - i,
    {
        let ghost before = sync_views(kept@);
        proof {
            assert(list.take(i + 1).drop_last() =~= list.take(i as int));
            assert(list.take(i + 1).last() == syncs@[i as int]@);
        }
        if !is_within(&syncs[i].local_dir, &candidate.local_dir) {
            kept.push(syncs[i].copy());
            assert(sync_views(kept@) =~= before.push(syncs@[i as int]@));
        }
        i = i + 1;
    }
    assert(list.take(i as int) =~= list);
    let ghost before = sync_views(kept@);
    kept.push(candidate);
    assert(sync_views(kept@) =~= before.push(new));
    *syncs = kept;
    Ok(())
}

/// The steps of a path are its parts in their order, without the empty ones and,
/// where dots do not count, without those that are a dot.
pub proof fn law_steps_are_the_parts(parts: Seq<Seq<char>>, no_dots: bool)
    ensures
        steps(parts, no_dots) == parts.filter(
            |part: Seq<char>| part.len() > 0 && !(no_dots && part == "."@),
        ),
    decreases parts.len(),
{
    reveal(Seq::filter);
    if parts.len() > 0 {
        law_steps_are_the_parts(parts.drop_last(), no_dots);
    }
}

/// Names lead down, one below the other, and each pair of dots leads back up by
/// one: through the names first, then above the start, but never above the root.
pub proof fn law_names_lead_down_and_dots_lead_up(from: Walk, rooted: bool, path: Seq<Seq<char>>)
    ensures
        (forall|i: int| 0 <= i < path.len() ==> #[trigger] path[i] != ".."@) ==> walk(
            from,
            rooted,
            path,
        ) == (Walk { up: from.up, down: from.down + path }),
        (forall|i: int| 0 <= i < path.len() ==> #[trigger] path[i] == ".."@) ==> walk(
            from,
            rooted,
            path,
        ) == (if path.len() <= from.down.len() {
            Walk { up: from.up, down: from.down.take(from.down.len() - path.len()) }
        } else if rooted {
            Walk { up: from.up, down: Seq::empty() }
        } else {
            Walk {
                up: (from.up + path.len() - from.down.len()) as nat,
                down: Seq::empty(),
            }
        }),
    decreases path.len(),
{
    if path.len() == 0 {
        assert(from.down + path =~= from.down);
        assert(from.down.take(from.down.len() as int) =~= from.down);
    } else {
        let rest = path.drop_last();
        law_names_lead_down_and_dots_lead_up(from, rooted, rest);
        assert(path.last() == path[path.len() - 1]);
        if forall|i: int| 0 <= i < path.len() ==> #[trigger] path[i] != ".."@ {
            assert forall|i: int| 0 <= i < rest.len() implies #[trigger] rest[i] != ".."@ by {
                assert(rest[i] == path[i]);
            }
            assert((from.down + rest).push(path.last()) =~= from.down + path);
        }
        if forall|i: int| 0 <= i < path.len() ==> #[trigger] path[i] == ".."@ {
            assert forall|i: int| 0 <= i < rest.len() implies #[trigger] rest[i] == ".."@ by {
                assert(rest[i] == path[i]);
            }
            let there = walk(from, rooted, rest);
            if path.len() <= from.down.len() {
                assert(there.down.drop_last() =~= from.down.take(from.down.len() - path.len()));
            } else {
                assert(there.down =~= Seq::<Seq<char>>::empty());
            }
        }
    }
}

/// A path as text is read back: from where it starts, and through the same
/// directories.
pub proof fn law_a_path_is_read_back(kind: RemotePathBase, list: Seq<Seq<char>>)
    requires
        list.len() > 0,
        forall|i: int|
            0 <= i < list.len() ==> {
                &&& (#[trigger] list[i]).len() > 0
                &&& list[i] != "."@
                &&& !list[i].contains('/')
            },
        list[0] != "~"@,
    ensures
        base_kind(rendered(kind, list)) == kind,
        base_steps(rendered(kind, list)) == list,
{
    reveal_strlit("~");
    reveal_strlit("~/");
    reveal_strlit("/");
    assert("/"@ =~= seq!['/']);
    let body = joined(list, seq!['/']);
    crate::text::law_joined_parts_split_again(list, '/');
    lemma_all_steps(list, true);
    lemma_all_steps(list, false);
    lemma_joined_begins(list);
    let text = rendered(kind, list);
    match kind {
        RemotePathBase::Home => {
            assert(text.take(2) =~= "~/"@);
            assert(text.skip(2) =~= body);
            assert(text.len() >= 2);
        },
        RemotePathBase::Absolute => {
            assert(text.take(1) =~= "/"@);
            assert(text.skip(1) =~= body);
            assert(text[0] == '/');
            if begins(text, "~/"@) {
                assert(text.take(2)[0] == '~');
            }
        },
        RemotePathBase::Relative => {
            assert(text == body);
            assert(list[0][0] != '/') by {
                if list[0][0] == '/' {
                    assert(list[0].contains('/'));
                }
            }
            if begins(text, "/"@) {
                assert(text.take(1)[0] == '/');
            }
            if text == "~"@ || begins(text, "~/"@) {
                assert(text[0] == '~') by {
                    if begins(text, "~/"@) {
                        assert(text.take(2)[0] == '~');
                    }
                }
                if begins(text, "~/"@) {
                    assert(text.take(2)[1] == '/');
                }
                if list[0].len() > 1 {
                    assert(text[1] == list[0][1]);
                    assert(list[0].contains(list[0][1]));
                }
                assert(list[0] =~= "~"@);
            }
        },
    }
}

/// Parts that are neither empty nor dots are all steps.
proof fn lemma_all_steps(list: Seq<Seq<char>>, no_dots: bool)
    requires
        forall|i: int|
            0 <= i < list.len() ==> (#[trigger] list[i]).len() > 0 && list[i] != "."@,
    ensures
        steps(list, no_dots) == list,
    decreases list.len(),
{
    if list.len() > 0 {
        lemma_all_steps(list.drop_last(), no_dots);
    }
    assert(steps(list, no_dots) =~= list);
}

/// A joined text begins with the first part.
proof fn lemma_joined_begins(list: Seq<Seq<char>>)
    requires
        list.len() > 0,
    ensures
        joined(list, seq!['/']).len() >= list[0].len(),
        forall|k: int|
            0 <= k < list[0].len() ==> #[trigger] joined(list, seq!['/'])[k] == list[0][k],
        list.len() == 1 ==> joined(list, seq!['/']) == list[0],
        list.len() > 1 ==> joined(list, seq!['/']).len() > list[0].len(),
    decreases list.len(),
{
    if list.len() > 1 {
        let rest = list.drop_last();
        assert(rest[0] == list[0]);
        lemma_joined_begins(rest);
        assert forall|k: int| 0 <= k < list[0].len() implies #[trigger] joined(list, seq!['/'])[k]
            == list[0][k] by {
            assert(joined(rest, seq!['/'])[k] == list[0][k]);
        }
    }
}

/// A dependency lies where its path leads from the directory of the manifest: a
/// path of names leads below that directory, and one that begins with a pair of
/// dots leads from the directory that holds it.
pub proof fn law_a_dependency_lies_where_its_path_leads(
    kind: RemotePathBase,
    dir: Seq<Seq<char>>,
    path: Seq<Seq<char>>,
)
    requires
        dir.len() > 0,
        path.len() > 0,
        forall|i: int|
            0 <= i < dir.len() ==> {
                &&& (#[trigger] dir[i]).len() > 0
                &&& dir[i] != "."@
                &&& !dir[i].contains('/')
            },
        dir[0] != "~"@,
        forall|i: int|
            0 <= i < path.len() ==> {
                &&& (#[trigger] path[i]).len() > 0
                &&& path[i] != "."@
                &&& path[i] != ".."@
                &&& !path[i].contains('/')
            },
        trimmed(rendered(kind, dir)) == rendered(kind, dir),
        trimmed(joined(path, seq!['/'])) == joined(path, seq!['/']),
        trimmed(joined(seq![".."@] + path, seq!['/'])) == joined(seq![".."@] + path, seq!['/']),
    ensures
        remote_dependency(rendered(kind, dir), joined(path, seq!['/'])) == rendered(kind, dir + path),
        remote_dependency(rendered(kind, dir), joined(seq![".."@] + path, seq!['/'])) == rendered(
            kind,
            dir.drop_last() + path,
        ),
{
    let rooted = kind == RemotePathBase::Absolute;
    let start = Walk { up: 0, down: dir };
    law_a_path_is_read_back(kind, dir);
    crate::text::law_joined_parts_split_again(path, '/');
    lemma_all_steps(path, true);
    law_names_lead_down_and_dots_lead_up(start, rooted, path);
    assert(walk_steps(Walk { up: 0, down: dir + path }) =~= dir + path);
    let up = seq![".."@] + path;
    reveal_strlit("..");
    reveal_strlit(".");
    assert forall|i: int| 0 <= i < up.len() implies !(#[trigger] up[i]).contains('/') && up[i].len()
        > 0 && up[i] != "."@ by {
        if i > 0 {
            assert(up[i] == path[i - 1]);
        }
    }
    crate::text::law_joined_parts_split_again(up, '/');
    lemma_all_steps(up, true);
    let parent = Walk { up: 0, down: dir.drop_last() };
    assert(walk(start, rooted, seq![".."@]) == parent) by {
        assert(seq![".."@].drop_last() =~= Seq::<Seq<char>>::empty());
        assert(walk(start, rooted, Seq::<Seq<char>>::empty()) == start);
    }
    law_walks_join(start, rooted, seq![".."@], path);
    law_names_lead_down_and_dots_lead_up(parent, rooted, path);
    assert(walk_steps(Walk { up: 0, down: dir.drop_last() + path }) =~= dir.drop_last() + path);
}

/// A dependency is copied from its own directory to its place on the host of the
/// machine, whose holding directory is made first; what is built or recorded by
/// version control stays behind.
pub proof fn law_a_dependency_is_copied_to_its_place(machine: ResolvedMachine, sync: SyncParts)
    ensures
        ({
            let words = dependency_words(machine, sync);
            &&& words[0] == "rsync"@
            &&& words.contains("--exclude=.git/"@)
            &&& words.contains("--exclude=target/"@)
            &&& words[words.len() - 2] == shown(sync.local_dir) + "/"@
            &&& words[words.len() - 1] == machine.host@ + ":"@ + trim_end_slashes(sync.remote_dir)
                + "/"@
            &&& words[words.len() - 4] == "--rsync-path"@
            &&& words[words.len() - 3] == "mkdir -p "@ + cd_argument(parent_of(sync.remote_dir))
                + " && rsync"@
        }),
{
    let words = dependency_words(machine, sync);
    assert(words[3] == "--exclude=.git/"@);
    assert(words[4] == "--exclude=target/"@);
}

/// What holds a path is the path without its last name: nothing above the home or
/// the root, and the current directory for a name alone.
pub proof fn law_what_holds_a_path(dir: Seq<char>, name: Seq<char>)
    requires
        name.len() > 0,
        !name.contains('/'),
        trimmed(dir + seq!['/'] + name) == dir + seq!['/'] + name,
        trimmed(name) == name,
    ensures
        dir.len() > 0 ==> parent_of(dir + seq!['/'] + name) == dir,
        dir.len() == 0 ==> parent_of(dir + seq!['/'] + name) == "/"@,
        name != "~"@ ==> parent_of(name) == "."@,
        parent_of("~"@) == "~"@,
{
    reveal_strlit("~");
    reveal_strlit("/");
    let path = dir + seq!['/'] + name;
    assert(path.last() == name.last());
    assert(name.last() != '/') by {
        if name.last() == '/' {
            assert(name.contains('/'));
        }
    }
    assert(trim_end_slashes(path) == path);
    assert(trim_end_slashes(name) == name);
    lemma_last_slash(dir, name);
    lemma_no_slash(name);
    assert(path.take(dir.len() as int) =~= dir);
    assert(path.len() >= 2);
    assert("~"@.len() == 1 && "~"@[0] == '~');
    assert(trimmed("~"@) == "~"@);
    assert(trim_end_slashes("~"@) == "~"@);
    if name == "/"@ {
        assert(name[0] == '/');
    }
}

/// A text without slashes has no last one.
pub proof fn lemma_no_slash(name: Seq<char>)
    requires
        !name.contains('/'),
    ensures
        find_last(name, '/') == -1,
    decreases name.len(),
{
    if name.len() > 0 {
        assert(name.contains(name.last()));
        let rest = name.drop_last();
        if rest.contains('/') {
            let k = rest.index_of('/');
            assert(name[k] == '/');
        }
        lemma_no_slash(rest);
    }
}

/// The last slash is the one before the last name.
pub proof fn lemma_last_slash(dir: Seq<char>, name: Seq<char>)
    requires
        !name.contains('/'),
    ensures
        find_last(dir + seq!['/'] + name, '/') == dir.len(),
    decreases name.len(),
{
    let path = dir + seq!['/'] + name;
    if name.len() == 0 {
        assert(path.last() == '/');
    } else {
        assert(name.contains(name.last()));
        assert(path.last() == name.last());
        let rest = name.drop_last();
        if rest.contains('/') {
            let k = rest.index_of('/');
            assert(name[k] == '/');
        }
        assert(path.drop_last() =~= dir + seq!['/'] + rest);
        lemma_last_slash(dir, rest);
    }
}

} // verus!
