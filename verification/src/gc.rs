//! Which directories of dead schedulers may be removed.

use vstd::prelude::*;

use crate::spill::WORKDIR_PREFIX;
use crate::text;

verus! {

broadcast use vstd::string::group_string_axioms;

/// What is known of an entry of a directory.
pub struct Entry {
    pub name: String,
    pub is_symlink: bool,
    pub is_dir: bool,
    /// It holds a file with the port of a scheduler.
    pub has_port: bool,
    /// It holds a file with the process number of a scheduler.
    pub has_pid: bool,
    /// That process is alive.
    pub alive: bool,
}

/// What an entry is to the collector.
#[derive(Clone, Copy, Debug, PartialEq, Eq, Structural)]
pub enum Verdict {
    /// Nothing to look at.
    Skip,
    /// Named like a spill, but not one.
    Foreign,
    /// A spill whose scheduler is alive.
    Alive,
    /// A spill whose scheduler is dead.
    Stale,
    /// A directory to look into.
    Descend,
}

/// Whether a name is that of a spill.
pub open spec fn spill_like(name: Seq<char>) -> bool {
    text::begins_with(name, WORKDIR_PREFIX@)
}

/// What an entry is: links and files are skipped; a spill is never looked into, and counts as one
/// only if it has a port and a process number; other hidden directories are skipped.
pub open spec fn verdict_of(e: Entry) -> Verdict {
    if e.is_symlink || !e.is_dir {
        Verdict::Skip
    } else if spill_like(e.name@) {
        if !(e.has_port && e.has_pid) {
            Verdict::Foreign
        } else if e.alive {
            Verdict::Alive
        } else {
            Verdict::Stale
        }
    } else if text::begins_with(e.name@, "."@) {
        Verdict::Skip
    } else {
        Verdict::Descend
    }
}

fn has_prefix(name: &str, prefix: &str) -> (r: bool)
    ensures
        r == text::begins_with(name@, prefix@),
{
    let v = text::chars_of(name);
    text::strip_prefix(&v, prefix).is_some()
}

/// Judges an entry.
pub fn classify_entry(e: &Entry) -> (v: Verdict)
    ensures
        v == verdict_of(*e),
{
    if e.is_symlink || !e.is_dir {
        Verdict::Skip
    } else if has_prefix(e.name.as_str(), WORKDIR_PREFIX) {
        if !(e.has_port && e.has_pid) {
            Verdict::Foreign
        } else if e.alive {
            Verdict::Alive
        } else {
            Verdict::Stale
        }
    } else if has_prefix(e.name.as_str(), ".") {
        Verdict::Skip
    } else {
        Verdict::Descend
    }
}

/// Whether a scheduler removes a sibling: a stale spill that is not its own.
pub fn sweepable(e: &Entry, is_own: bool) -> (r: bool)
    ensures
        r == (!is_own && verdict_of(*e) == Verdict::Stale),
        r ==> !is_own && !e.alive && e.has_port && e.has_pid && e.is_dir && !e.is_symlink,
{
    !is_own && classify_entry(e) == Verdict::Stale
}

/// What to do with an entry.
#[derive(Clone, Copy, Debug, PartialEq, Eq, Structural)]
pub enum GcAction {
    Nothing,
    /// Say that it is not the directory of a scheduler.
    ReportForeign,
    /// Say that it is alive.
    ReportAlive,
    /// Say that it would be removed.
    ReportStale,
    /// Remove it.
    Remove,
}

/// What to do with an entry of this kind; a dry run removes nothing.
pub open spec fn action_for(v: Verdict, dry_run: bool) -> GcAction {
    match v {
        Verdict::Foreign => GcAction::ReportForeign,
        Verdict::Alive => GcAction::ReportAlive,
        Verdict::Stale => if dry_run {
            GcAction::ReportStale
        } else {
            GcAction::Remove
        },
        _ => GcAction::Nothing,
    }
}

/// A walk through directories that removes stale spills.
pub struct GcRun {
    pub dry_run: bool,
    /// Directories to look into, the next one last.
    pub pending: Vec<String>,
    pub removed: u64,
    pub would_remove: u64,
    pub alive: u64,
}

/// The number at which counting stops.
pub open spec fn counted(n: u64) -> u64 {
    if n < u64::MAX {
        (n + 1) as u64
    } else {
        n
    }
}

fn count(n: u64) -> (r: u64)
    ensures
        r == counted(n),
{
    if n < u64::MAX {
        n + 1
    } else {
        n
    }
}

impl GcRun {
    /// A walk from a directory.
    pub fn new(start: String, dry_run: bool) -> (g: Self)
        ensures
            g.dry_run == dry_run,
            g.pending@ == seq![start],
            g.removed == 0,
            g.would_remove == 0,
            g.alive == 0,
    {
        let mut pending: Vec<String> = Vec::new();
        pending.push(start);
        assert(pending@ =~= seq![start]);
        GcRun { dry_run, pending, removed: 0, would_remove: 0, alive: 0 }
    }

    /// The directory to look into next.
    pub fn next_dir(&mut self) -> (dir: Option<String>)
        ensures
            match dir {
                Some(d) => old(self).pending@.len() > 0 && d == old(self).pending@.last()
                    && final(self).pending@ == old(self).pending@.drop_last(),
                None => old(self).pending@.len() == 0 && final(self).pending@ == old(self).pending@,
            },
            final(self).dry_run == old(self).dry_run,
            final(self).removed == old(self).removed,
            final(self).would_remove == old(self).would_remove,
            final(self).alive == old(self).alive,
    {
        self.pending.pop()
    }

    /// Decides on an entry and keeps count; a directory to look into is remembered.
    pub fn consider(&mut self, e: &Entry, path: String) -> (action: GcAction)
        ensures
            action == action_for(verdict_of(*e), old(self).dry_run),
            final(self).dry_run == old(self).dry_run,
            final(self).removed == old(self).removed,
            final(self).alive == (if action == GcAction::ReportAlive {
                counted(old(self).alive)
            } else {
                old(self).alive
            }),
            final(self).would_remove == (if action == GcAction::ReportStale {
                counted(old(self).would_remove)
            } else {
                old(self).would_remove
            }),
            final(self).pending@ == (if verdict_of(*e) == Verdict::Descend {
                old(self).pending@.push(path)
            } else {
                old(self).pending@
            }),
    {
        match classify_entry(e) {
            Verdict::Skip => GcAction::Nothing,
            Verdict::Foreign => GcAction::ReportForeign,
            Verdict::Alive => {
                self.alive = count(self.alive);
                GcAction::ReportAlive
            },
            Verdict::Stale => {
                if self.dry_run {
                    self.would_remove = count(self.would_remove);
                    GcAction::ReportStale
                } else {
                    GcAction::Remove
                }
            },
            Verdict::Descend => {
                self.pending.push(path);
                GcAction::Nothing
            },
        }
    }

    /// Counts a directory that was removed.
    pub fn note_removed(&mut self)
        ensures
            final(self).removed == counted(old(self).removed),
            final(self).pending@ == old(self).pending@,
            final(self).dry_run == old(self).dry_run,
            final(self).would_remove == old(self).would_remove,
            final(self).alive == old(self).alive,
    {
        self.removed = count(self.removed);
    }

    /// What the walk came to, in words.
    pub fn summary(&self) -> (s: String)
        ensures
            s@ == (if self.dry_run {
                "qworkdir --gc (dry-run): "@ + text::digits(self.would_remove as nat, 10)
                    + " stale workdir(s) would be removed, "@ + text::digits(self.alive as nat, 10)
                    + " alive kept"@
            } else {
                "qworkdir --gc: removed "@ + text::digits(self.removed as nat, 10)
                    + " stale workdir(s), kept "@ + text::digits(self.alive as nat, 10) + " alive"@
            }),
    {
        if self.dry_run {
            let mut s: String = "qworkdir --gc (dry-run): ".to_owned();
            text::push_number(&mut s, self.would_remove, 10);
            s.append(" stale workdir(s) would be removed, ");
            text::push_number(&mut s, self.alive, 10);
            s.append(" alive kept");
            s
        } else {
            let mut s: String = "qworkdir --gc: removed ".to_owned();
            text::push_number(&mut s, self.removed, 10);
            s.append(" stale workdir(s), kept ");
            text::push_number(&mut s, self.alive, 10);
            s.append(" alive");
            s
        }
    }
}

/// Only the directory of a dead scheduler is ever removed, and in a dry run nothing is.
pub proof fn law_only_dead_spills_are_removed(e: Entry, dry_run: bool)
    requires
        action_for(verdict_of(e), dry_run) == GcAction::Remove,
    ensures
        !dry_run,
        !e.alive,
        e.has_port && e.has_pid,
        e.is_dir && !e.is_symlink,
        spill_like(e.name@),
{
}

/// A spill is never looked into, and neither is any other hidden directory.
pub proof fn law_hidden_directories_are_not_entered(e: Entry)
    requires
        text::begins_with(e.name@, "."@),
    ensures
        verdict_of(e) != Verdict::Descend,
{
}

/// Whether a name begins as that of a spill does.
pub open spec fn dot_tren(name: Seq<char>) -> bool {
    name.len() >= 6 && name[0] == '.' && name[1] == 't' && name[2] == 'r' && name[3] == 'e' && name[4] == 'n'
        && name[5] == '-'
}

/// What an entry is, said of what is known of it: a spill is a directory, not reached through a
/// link, that is named like one and has both files, and it is stale exactly if its scheduler is
/// dead; a directory with such a name that lacks a file is foreign; of the others those are
/// entered that are not hidden.
pub proof fn law_entries_are_judged(e: Entry)
    ensures
        ({
            let dir = e.is_dir && !e.is_symlink;
            let named = dot_tren(e.name@);
            let hidden = e.name@.len() > 0 && e.name@[0] == '.';
            &&& verdict_of(e) == Verdict::Stale <==> dir && named && e.has_port && e.has_pid && !e.alive
            &&& verdict_of(e) == Verdict::Alive <==> dir && named && e.has_port && e.has_pid && e.alive
            &&& verdict_of(e) == Verdict::Foreign <==> dir && named && !(e.has_port && e.has_pid)
            &&& verdict_of(e) == Verdict::Descend <==> dir && !hidden
            &&& verdict_of(e) == Verdict::Skip <==> !dir || hidden && !named
        }),
{
    reveal_strlit(".tren-");
    reveal_strlit(".");
    let name = e.name@;
    let p = WORKDIR_PREFIX@;
    if dot_tren(name) {
        assert(name.take(6) =~= p);
    }
    if text::begins_with(name, p) {
        assert(name.take(6)[0] == p[0] && name.take(6)[1] == p[1] && name.take(6)[2] == p[2] && name.take(6)[3]
            == p[3] && name.take(6)[4] == p[4] && name.take(6)[5] == p[5]);
    }
    let d = "."@;
    if name.len() > 0 && name[0] == '.' {
        assert(name.take(1) =~= d);
    }
    if text::begins_with(name, d) {
        assert(name.take(1)[0] == d[0]);
    }
}

/// What is done about an entry: a stale spill is removed, or in a dry run reported; a living one
/// and a foreign one are reported either way; nothing is done about anything else.
pub proof fn law_stale_spills_are_removed(v: Verdict, dry_run: bool)
    ensures
        action_for(v, dry_run) == GcAction::Remove <==> v == Verdict::Stale && !dry_run,
        action_for(v, dry_run) == GcAction::ReportStale <==> v == Verdict::Stale && dry_run,
        action_for(v, dry_run) == GcAction::ReportAlive <==> v == Verdict::Alive,
        action_for(v, dry_run) == GcAction::ReportForeign <==> v == Verdict::Foreign,
{
}

/// Counting adds one, as long as there is room.
pub proof fn law_counting_adds_one(n: u64)
    ensures
        n < u64::MAX ==> counted(n) == n + 1,
        counted(n) >= n,
{
}

} // verus!
