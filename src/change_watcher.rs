//! Change notification for one client session: the session's watch
//! registrations, the commands that change them, and the batches of
//! changed paths that reach the client.
use vstd::prelude::*;

use crate::archives::lemma_filter_map_step;

verus! {

/// A client's command: watch or unwatch a path.
pub struct WatchCommand {
    pub watch: bool,
    pub recursive: bool,
    pub path: String,
}

/// A path that the session watches.
pub struct WatchRegistration {
    pub path: String,
    pub recursive: bool,
}

/// What the session's own watcher must be told.
pub enum WatchAction {
    Watch { path: String, recursive: bool },
    Unwatch { path: String },
}

/// One changed path, as sent to the client.
pub struct FileChange {
    pub path: String,
}

/// A batch of changed paths, as sent to the client.
pub struct FileChanges {
    pub changes: Vec<FileChange>,
}

/// The registrations of a session, over plain values.
pub struct SessionView {
    pub registrations: Seq<(Seq<char>, bool)>,
    pub closed: bool,
}

/// One session's watch registrations; once closed, it holds none and
/// takes no further command.
pub struct WatchSession {
    registrations: Vec<WatchRegistration>,
    closed: bool,
}

pub open spec fn regs_view(v: Seq<WatchRegistration>) -> Seq<(Seq<char>, bool)> {
    v.map_values(|r: WatchRegistration| (r.path@, r.recursive))
}

impl View for WatchSession {
    type V = SessionView;

    closed spec fn view(&self) -> SessionView {
        SessionView { registrations: regs_view(self.registrations@), closed: self.closed }
    }
}

/// The registrations without those of `p`.
pub open spec fn without_path(regs: Seq<(Seq<char>, bool)>, p: Seq<char>) -> Seq<(Seq<char>, bool)> {
    regs.filter_map(|r: (Seq<char>, bool)| if r.0 == p { None } else { Some(r) })
}

/// The session after a command, and what its watcher must be told.
pub open spec fn command_next(s: SessionView, path: Seq<char>, watch: bool, recursive: bool) -> (
    SessionView,
    Option<(Seq<char>, bool, bool)>,
) {
    if s.closed {
        (s, None)
    } else if watch {
        (
            SessionView {
                registrations: without_path(s.registrations, path).push((path, recursive)),
                ..s
            },
            Some((path, true, recursive)),
        )
    } else {
        (
            SessionView { registrations: without_path(s.registrations, path), ..s },
            Some((path, false, false)),
        )
    }
}

/// What reaches the client from a pending batch: the whole batch, as the
/// session's own watcher reported it (empty included), while the session is
/// open; nothing once it is closed.
pub open spec fn delivered(s: SessionView, changed: Seq<Seq<char>>) -> Option<Seq<Seq<char>>> {
    if s.closed {
        None
    } else {
        Some(changed)
    }
}

pub open spec fn paths_view(v: Seq<String>) -> Seq<Seq<char>> {
    v.map_values(|s: String| s@)
}

pub open spec fn changes_view(v: Seq<FileChange>) -> Seq<Seq<char>> {
    v.map_values(|c: FileChange| c.path@)
}

proof fn lemma_push_view<A, B>(v: Seq<A>, x: A, f: spec_fn(A) -> B)
    ensures
        v.push(x).map_values(f) == v.map_values(f).push(f(x)),
{
    assert(v.push(x).map_values(f) =~= v.map_values(f).push(f(x)));
}

impl WatchSession {
    /// A new open session that watches nothing.
    pub fn new() -> (r: WatchSession)
        ensures
            r@.registrations.len() == 0,
            !r@.closed,
    {
        let r = WatchSession { registrations: Vec::new(), closed: false };
        assert(regs_view(r.registrations@) =~= Seq::empty());
        r
    }

    /// The session's registrations, as paths and recursion flags.
    pub fn registrations(&self) -> (r: Vec<(String, bool)>)
        ensures
            r@.len() == self@.registrations.len(),
            forall|i: int|
                0 <= i < r@.len() ==> (#[trigger] r@[i].0@, r@[i].1) == self@.registrations[i],
    {
        let mut r: Vec<(String, bool)> = Vec::new();
        let mut i: usize = 0;
        while i < self.registrations.len()
            invariant
                i <= self.registrations@.len(),
                r@.len() == i,
                forall|j: int|
                    0 <= j < i ==> (#[trigger] r@[j].0@, r@[j].1) == regs_view(
                        self.registrations@,
                    )[j],
            decreases self.registrations@.len() - i,
        {
            let reg = &self.registrations[i];
            r.push((reg.path.clone(), reg.recursive));
            i = i + 1;
        }
        r
    }

    /// Decides what the session's watcher must be told for a client's
    /// command, without changing the session: nothing once it is closed.
    /// The registration changes only when `commit` is called, once the
    /// watcher has accepted the action.
    pub fn handle_command(&self, cmd: &WatchCommand) -> (r: Option<WatchAction>)
        ensures
            match command_next(self@, cmd.path@, cmd.watch, cmd.recursive).1 {
                None => r is None,
                Some((p, true, rec)) => r matches Some(WatchAction::Watch { path, recursive })
                    && path@ == p && recursive == rec,
                Some((p, false, _)) => r matches Some(WatchAction::Unwatch { path }) && path@ == p,
            },
    {
        if self.closed {
            None
        } else if cmd.watch {
            Some(WatchAction::Watch { path: cmd.path.clone(), recursive: cmd.recursive })
        } else {
            Some(WatchAction::Unwatch { path: cmd.path.clone() })
        }
    }

    /// Records a command whose action the watcher accepted. Watching a path
    /// replaces any earlier registration of it; unwatching removes it. A
    /// closed session stays as it is.
    pub fn commit(&mut self, cmd: WatchCommand)
        ensures
            final(self)@ == command_next(old(self)@, cmd.path@, cmd.watch, cmd.recursive).0,
    {
        if self.closed {
            return;
        }
        let ghost src = regs_view(self.registrations@);
        let ghost f = |r: (Seq<char>, bool)| if r.0 == cmd.path@ { None } else { Some(r) };
        let mut kept: Vec<WatchRegistration> = Vec::new();
        let mut i: usize = 0;
        while i < self.registrations.len()
            invariant
                i <= self.registrations@.len(),
                src == regs_view(self.registrations@),
                f == (|r: (Seq<char>, bool)| if r.0 == cmd.path@ { None } else { Some(r) }),
                regs_view(kept@) == src.subrange(0, i as int).filter_map(f),
            decreases self.registrations@.len() - i,
        {
            proof {
                lemma_filter_map_step(src, f, i as int);
            }
            let reg = &self.registrations[i];
            assert(src[i as int] == (reg.path@, reg.recursive));
            if reg.path != cmd.path {
                let k = WatchRegistration { path: reg.path.clone(), recursive: reg.recursive };
                proof {
                    lemma_push_view(
                        kept@,
                        k,
                        |r: WatchRegistration| (r.path@, r.recursive),
                    );
                }
                kept.push(k);
            }
            i = i + 1;
        }
        assert(src.subrange(0, i as int) =~= src);
        let WatchCommand { watch, recursive, path } = cmd;
        if watch {
            let k = WatchRegistration { path: path.clone(), recursive };
            proof {
                lemma_push_view(kept@, k, |r: WatchRegistration| (r.path@, r.recursive));
            }
            kept.push(k);
            self.registrations = kept;
        } else {
            self.registrations = kept;
        }
    }

    /// The batch that reaches the client from a pending batch of changed
    /// paths: all of it, in order, while the session is open; nothing once
    /// it is closed.
    pub fn deliver(&self, changed: Vec<String>) -> (r: Option<FileChanges>)
        ensures
            match r {
                None => delivered(self@, paths_view(changed@)) is None,
                Some(c) => delivered(self@, paths_view(changed@)) == Some(changes_view(c.changes@)),
            },
    {
        if self.closed {
            return None;
        }
        let ghost src = paths_view(changed@);
        let mut out: Vec<FileChange> = Vec::new();
        let mut i: usize = 0;
        while i < changed.len()
            invariant
                i <= changed@.len(),
                src == paths_view(changed@),
                changes_view(out@) == src.subrange(0, i as int),
            decreases changed@.len() - i,
        {
            let c = FileChange { path: changed[i].clone() };
            proof {
                lemma_push_view(out@, c, |c: FileChange| c.path@);
            }
            out.push(c);
            assert(src.subrange(0, i + 1) =~= src.subrange(0, i as int).push(changed@[i as int]@));
            i = i + 1;
        }
        assert(src.subrange(0, i as int) =~= src);
        Some(FileChanges { changes: out })
    }

    /// Closes the session: every registration is released and no batch
    /// reaches the client any more.
    pub fn close(&mut self)
        ensures
            final(self)@.registrations.len() == 0,
            final(self)@.closed,
    {
        self.registrations = Vec::new();
        self.closed = true;
        assert(regs_view(self.registrations@) =~= Seq::empty());
    }
}

proof fn lemma_without_only(p: Seq<char>, b: bool)
    ensures
        without_path(seq![(p, b)], p) =~= Seq::<(Seq<char>, bool)>::empty(),
{
    let s = seq![(p, b)];
    assert(s.drop_last() =~= Seq::<(Seq<char>, bool)>::empty());
    reveal_with_fuel(Seq::filter_map, 2);
}

/// On an open session that watches nothing, watching a directory records
/// it, and a pending batch with a change below it comes through whole;
/// unwatching the directory removes its registration, so the session's
/// watcher is no longer asked for changes there; a closed session delivers
/// nothing.
pub proof fn lemma_watch_then_unwatch(s: SessionView, root: Seq<char>, batch: Seq<Seq<char>>)
    requires
        !s.closed,
        s.registrations.len() == 0,
    ensures
        command_next(s, root, true, true).0.registrations == seq![(root, true)],
        delivered(command_next(s, root, true, true).0, batch) == Some(batch),
        command_next(command_next(s, root, true, true).0, root, false, false).0.registrations.len()
            == 0,
        delivered(SessionView { closed: true, ..s }, batch) is None,
{
    let s1 = command_next(s, root, true, true).0;
    assert(without_path(s.registrations, root) =~= Seq::empty());
    assert(s1.registrations =~= seq![(root, true)]);
    lemma_without_only(root, true);
}

} // verus!
