//! The recent-file list: what it remembers, what it shows, and what it
//! calls each entry.
//!
//! Which listed files still exist is asked of the filesystem off the window's
//! thread; here are only the decisions around those questions -- which paths
//! to ask about, and what an answer changes.

use vstd::prelude::*;

use crate::text::{chars_of, push_str, spellings};

verus! {

/// Files kept in the recent list.
pub const RECENT_LIMIT: usize = 10;

/// Entries reachable by a digit shortcut.
pub const SHORTCUTS: usize = 9;

/// Whether two path spellings name the same path, component by component,
/// as `std::path::Path`'s `==` compares them.
pub uninterp spec fn paths_equal(a: Seq<char>, b: Seq<char>) -> bool;

/// `std::path::Path`'s `==` on two path spellings. `Path` is `Eq`, so the
/// comparison is symmetric and a spelling equals itself; which spellings
/// are equal beyond that (a doubled separator, a `.` component) is left to
/// the name.
#[verifier::external_body]
fn same_path(a: &str, b: &str) -> (same: bool)
    ensures
        same == paths_equal(a@, b@),
        same == paths_equal(b@, a@),
        a@ == b@ ==> same,
{
    std::path::Path::new(a) == std::path::Path::new(b)
}

/// The last component of a path spelling, as `Path::file_name` reads it.
pub uninterp spec fn file_name_of(path: Seq<char>) -> Option<Seq<char>>;

/// `Path::file_name` on a path spelling; a UTF-8 path has a UTF-8 name, so
/// the lossy conversion loses nothing.
#[verifier::external_body]
fn file_name(path: &str) -> (name: Option<String>)
    ensures
        match file_name_of(path@) {
            Some(n) => name matches Some(s) && s@ == n,
            None => name is None,
        },
{
    std::path::Path::new(path).file_name().map(|name| name.to_string_lossy().into_owned())
}

/// The directory part of a path spelling, as `Path::parent` reads it.
pub uninterp spec fn parent_of(path: Seq<char>) -> Option<Seq<char>>;

/// `Path::parent` on a path spelling, shown the way `Path::display` shows it.
#[verifier::external_body]
fn parent(path: &str) -> (dir: Option<String>)
    ensures
        match parent_of(path@) {
            Some(d) => dir matches Some(s) && s@ == d,
            None => dir is None,
        },
{
    std::path::Path::new(path).parent().map(|dir| dir.display().to_string())
}

/// A file that was opened, and what it took to open it.
#[derive(Debug, Clone, PartialEq)]
pub struct Recent<H> {
    pub path: String,
    pub hints: H,
}

/// `b` is a copy of `a`: the same path, and hints cloned from `a`'s.
pub open spec fn copy_of<H: Clone>(a: Recent<H>, b: Recent<H>) -> bool {
    a.path@ == b.path@ && cloned(a.hints, b.hints)
}

/// `b` holds copies of the entries of `a`, in order.
pub open spec fn copies<H: Clone>(a: Seq<Recent<H>>, b: Seq<Recent<H>>) -> bool {
    a.len() == b.len() && forall|i: int| 0 <= i < a.len() ==> #[trigger] copy_of(a[i], b[i])
}

fn copy_entry<H: Clone>(entry: &Recent<H>) -> (copy: Recent<H>)
    ensures
        copy_of(*entry, copy),
{
    Recent { path: entry.path.clone(), hints: entry.hints.clone() }
}

/// Copies of the first `limit` entries.
fn copy_first<H: Clone>(entries: &[Recent<H>], limit: usize) -> (copy: Vec<Recent<H>>)
    ensures
        copies(entries@.take(if entries@.len() < limit { entries@.len() as int } else { limit as int }), copy@),
{
    let n = if entries.len() < limit { entries.len() } else { limit };
    let mut copy: Vec<Recent<H>> = Vec::new();
    let mut k: usize = 0;
    while k < n
        invariant
            k <= n <= entries@.len(),
            copies(entries@.take(k as int), copy@),
        decreases n - k,
    {
        copy.push(copy_entry(&entries[k]));
        k = k + 1;
        assert forall|i: int| 0 <= i < k implies #[trigger] copy_of(entries@.take(k as int)[i], copy@[i]) by {
            if i < k - 1 {
                assert(entries@.take(k as int)[i] == entries@.take(k - 1)[i]);
            }
        }
    }
    copy
}

/// Whether `set` holds a path equal to `path`.
pub open spec fn listed(set: Seq<Seq<char>>, path: Seq<char>) -> bool {
    exists|i: int| 0 <= i < set.len() && paths_equal(path, #[trigger] set[i])
}

/// Whether some entry of `entries` has a path equal to `path`.
pub open spec fn on_list<H>(entries: Seq<Recent<H>>, path: Seq<char>) -> bool {
    exists|i: int| 0 <= i < entries.len() && paths_equal(#[trigger] entries[i].path@, path)
}

/// What is known to exist after an answer for `path`: a file that exists is
/// added unless it is there already; otherwise every path equal to it goes.
pub open spec fn answered(available: Seq<Seq<char>>, path: Seq<char>, found: bool) -> Seq<Seq<char>> {
    if found {
        if listed(available, path) {
            available
        } else {
            available.push(path)
        }
    } else {
        available.filter(|p: Seq<char>| !paths_equal(path, p))
    }
}

/// `set` after asking, in order, for each of `paths` to be added: a path
/// already there (or added earlier in the same pass) is not added again.
pub open spec fn after_inserting(set: Seq<Seq<char>>, paths: Seq<Seq<char>>) -> Seq<Seq<char>>
    decreases paths.len(),
{
    if paths.len() == 0 {
        set
    } else {
        let before = after_inserting(set, paths.drop_last());
        if listed(before, paths.last()) {
            before
        } else {
            before.push(paths.last())
        }
    }
}

/// Whether `set` holds `path`, and where.
fn find_path(set: &Vec<String>, path: &str) -> (found: bool)
    ensures
        found == listed(spellings(set@), path@),
{
    let mut k: usize = 0;
    while k < set.len()
        invariant
            k <= set@.len(),
            forall|i: int| 0 <= i < k ==> !paths_equal(path@, #[trigger] spellings(set@)[i]),
        decreases set@.len() - k,
    {
        if same_path(path, set[k].as_str()) {
            assert(paths_equal(path@, spellings(set@)[k as int]));
            return true;
        }
        k = k + 1;
    }
    false
}

/// `set` without the paths equal to `path`.
fn without_path(set: &Vec<String>, path: &str) -> (rest: Vec<String>)
    ensures
        spellings(rest@) == spellings(set@).filter(|p: Seq<char>| !paths_equal(path@, p)),
{
    let ghost keep = |p: Seq<char>| !paths_equal(path@, p);
    let mut rest: Vec<String> = Vec::new();
    let mut k: usize = 0;
    while k < set.len()
        invariant
            k <= set@.len(),
            keep == (|p: Seq<char>| !paths_equal(path@, p)),
            spellings(rest@) == spellings(set@).take(k as int).filter(keep),
        decreases set@.len() - k,
    {
        proof {
            reveal(Seq::filter);
            assert(spellings(set@).take(k + 1).drop_last() =~= spellings(set@).take(k as int));
        }
        if !same_path(path, set[k].as_str()) {
            rest.push(set[k].clone());
            assert(spellings(rest@) =~= spellings(set@).take(k as int).filter(keep).push(set@[k as int]@));
        }
        k = k + 1;
    }
    assert(spellings(set@).take(set@.len() as int) =~= spellings(set@));
    rest
}

/// Something that changes what the recent list offers without changing the
/// list: an answer on whether a path names a file, a file opened, or the
/// open file closed.
pub enum Event {
    Answer(Seq<char>, bool),
    Open(Seq<char>),
    Close,
}

/// `after` is `before` once `event` has happened: the list stays, an answer
/// changes what is known to exist (a path not on the list counts as not
/// found), and opening or closing a file changes only which one is open.
pub open spec fn stepped<H: Clone>(before: RecentFiles<H>, after: RecentFiles<H>, event: Event) -> bool {
    &&& after.entries() == before.entries()
    &&& match event {
        Event::Answer(path, found) => after.current() == before.current() && after.available()
            == answered(before.available(), path, found && on_list(before.entries(), path)),
        Event::Open(path) => after.current() == Some(path) && after.available() == before.available(),
        Event::Close => after.current() is None && after.available() == before.available(),
    }
}

/// Which files of the recent list are known to exist, and which one is open.
pub struct RecentFiles<H> {
    entries: Vec<Recent<H>>,
    current: Option<String>,
    available: Vec<String>,
    pending: Vec<String>,
}

impl<H: Clone> RecentFiles<H> {
    /// The list, most recently opened first.
    pub closed spec fn entries(self) -> Seq<Recent<H>> {
        self.entries@
    }

    /// The path of the open file, as it was opened.
    pub closed spec fn current(self) -> Option<Seq<char>> {
        match self.current {
            Some(p) => Some(p@),
            None => None,
        }
    }

    /// Paths whose files were last found to exist.
    pub closed spec fn available(self) -> Seq<Seq<char>> {
        spellings(self.available@)
    }

    /// Paths with a check outstanding.
    pub closed spec fn pending(self) -> Seq<Seq<char>> {
        spellings(self.pending@)
    }

    /// Whether an entry is offered: its file exists and it is not the open one.
    pub open spec fn offers(self, entry: Recent<H>) -> bool {
        &&& listed(self.available(), entry.path@)
        &&& !(self.current() matches Some(c) && paths_equal(c, entry.path@))
    }

    /// The entries offered, in list order.
    pub open spec fn shown(self) -> Seq<Recent<H>> {
        self.entries().filter(|entry: Recent<H>| self.offers(entry))
    }

    /// A list of the first [`RECENT_LIMIT`] entries, none of them known to exist yet.
    pub fn new(entries: &[Recent<H>]) -> (files: Self)
        ensures
            copies(entries@.take(if entries@.len() < RECENT_LIMIT { entries@.len() as int } else { RECENT_LIMIT as int }), files.entries()),
            files.current() is None,
            files.available() == Seq::<Seq<char>>::empty(),
            files.pending() == Seq::<Seq<char>>::empty(),
    {
        let files = RecentFiles {
            entries: copy_first(entries, RECENT_LIMIT),
            current: None,
            available: Vec::new(),
            pending: Vec::new(),
        };
        assert(files.available() =~= Seq::<Seq<char>>::empty());
        assert(files.pending() =~= Seq::<Seq<char>>::empty());
        files
    }

    /// The list as it was last given.
    pub fn history(&self) -> (history: &[Recent<H>])
        ensures
            history@ == self.entries(),
    {
        self.entries.as_slice()
    }

    /// How many paths are waiting for an answer.
    pub fn waiting(&self) -> (count: usize)
        ensures
            count == self.pending().len(),
    {
        self.pending.len()
    }

    /// The file now open, by the path it was opened with (made absolute).
    pub fn set_current(&mut self, path: String)
        ensures
            final(self).current() == Some(path@),
            final(self).entries() == old(self).entries(),
            final(self).available() == old(self).available(),
            final(self).pending() == old(self).pending(),
            stepped(*old(self), *final(self), Event::Open(path@)),
    {
        self.current = Some(path);
    }

    pub fn clear_current(&mut self)
        ensures
            final(self).current() is None,
            final(self).entries() == old(self).entries(),
            final(self).available() == old(self).available(),
            final(self).pending() == old(self).pending(),
            stepped(*old(self), *final(self), Event::Close),
    {
        self.current = None;
    }

    /// Take a new list: forget what is known of paths no longer on it, and
    /// answer the paths to check, each at most once and none already waiting
    /// for an answer. Those become pending.
    pub fn refresh(&mut self, entries: &[Recent<H>]) -> (checks: Vec<String>)
        ensures
            copies(entries@.take(if entries@.len() < RECENT_LIMIT { entries@.len() as int } else { RECENT_LIMIT as int }), final(self).entries()),
            final(self).current() == old(self).current(),
            final(self).available() == old(self).available().filter(
                |p: Seq<char>| exists|i: int| 0 <= i < final(self).entries().len() && paths_equal(#[trigger] final(self).entries()[i].path@, p),
            ),
            final(self).pending() == after_inserting(old(self).pending(), final(self).entries().map_values(|e: Recent<H>| e.path@)),
            spellings(checks@) == final(self).pending().skip(old(self).pending().len() as int),
    {
        let entries = copy_first(entries, RECENT_LIMIT);
        let ghost on_list = |p: Seq<char>| exists|i: int| 0 <= i < entries@.len() && paths_equal(#[trigger] entries@[i].path@, p);
        let mut kept: Vec<String> = Vec::new();
        let mut k: usize = 0;
        while k < self.available.len()
            invariant
                k <= self.available@.len(),
                on_list == (|p: Seq<char>| exists|i: int| 0 <= i < entries@.len() && paths_equal(#[trigger] entries@[i].path@, p)),
                spellings(kept@) == spellings(self.available@).take(k as int).filter(on_list),
            decreases self.available@.len() - k,
        {
            proof {
                reveal(Seq::filter);
                assert(spellings(self.available@).take(k + 1).drop_last() =~= spellings(self.available@).take(k as int));
            }
            let candidate = self.available[k].as_str();
            let mut j: usize = 0;
            let mut found = false;
            while j < entries.len()
                invariant
                    j <= entries@.len(),
                    candidate@ == spellings(self.available@)[k as int],
                    found == exists|i: int| 0 <= i < j && paths_equal(#[trigger] entries@[i].path@, candidate@),
                decreases entries@.len() - j,
            {
                if same_path(entries[j].path.as_str(), candidate) {
                    found = true;
                }
                j = j + 1;
            }
            if found {
                kept.push(self.available[k].clone());
                assert(spellings(kept@) =~= spellings(self.available@).take(k as int).filter(on_list).push(candidate@));
            }
            k = k + 1;
        }
        assert(spellings(self.available@).take(self.available@.len() as int) =~= spellings(self.available@));
        let ghost before = self.pending@;
        let ghost cur = self.current;
        let ghost paths = entries@.map_values(|e: Recent<H>| e.path@);
        let mut checks: Vec<String> = Vec::new();
        let mut k: usize = 0;
        while k < entries.len()
            invariant
                k <= entries@.len(),
                self.current == cur,
                paths == entries@.map_values(|e: Recent<H>| e.path@),
                spellings(self.pending@) == after_inserting(spellings(before), paths.take(k as int)),
                spellings(self.pending@).len() >= spellings(before).len(),
                spellings(before) =~= spellings(self.pending@).take(spellings(before).len() as int),
                spellings(checks@) == spellings(self.pending@).skip(spellings(before).len() as int),
            decreases entries@.len() - k,
        {
            assert(paths.take(k + 1).drop_last() =~= paths.take(k as int));
            let path = entries[k].path.as_str();
            if !find_path(&self.pending, path) {
                let ghost p0 = spellings(self.pending@);
                let ghost c0 = spellings(checks@);
                let owned = String::from_str(path);
                self.pending.push(owned.clone());
                checks.push(owned);
                assert(spellings(self.pending@) =~= p0.push(path@));
                assert(spellings(checks@) =~= c0.push(path@));
                assert(spellings(self.pending@).skip(spellings(before).len() as int) =~= c0.push(path@));
                assert(spellings(before) =~= spellings(self.pending@).take(spellings(before).len() as int));
            }
            k = k + 1;
        }
        assert(paths.take(entries@.len() as int) =~= paths);
        self.available = kept;
        self.entries = entries;
        checks
    }
}


impl<H: Clone> RecentFiles<H> {
    /// An answer came back: `path` does or does not name a file. Only a path
    /// still on the list can become available.
    pub fn apply(&mut self, path: String, exists: bool)
        ensures
            final(self).entries() == old(self).entries(),
            final(self).current() == old(self).current(),
            final(self).pending() == old(self).pending().filter(|p: Seq<char>| !paths_equal(path@, p)),
            final(self).available() == answered(
                old(self).available(),
                path@,
                exists && on_list(old(self).entries(), path@),
            ),
            stepped(*old(self), *final(self), Event::Answer(path@, exists)),
    {
        self.pending = without_path(&self.pending, path.as_str());
        let mut on_list = false;
        let mut k: usize = 0;
        while k < self.entries.len()
            invariant
                k <= self.entries@.len(),
                self.entries == old(self).entries,
                self.available == old(self).available,
                self.current == old(self).current,
                spellings(self.pending@) == old(self).pending().filter(|p: Seq<char>| !paths_equal(path@, p)),
                on_list == exists|i: int| 0 <= i < k && paths_equal(#[trigger] self.entries@[i].path@, path@),
            decreases self.entries@.len() - k,
        {
            if same_path(self.entries[k].path.as_str(), path.as_str()) {
                on_list = true;
            }
            k = k + 1;
        }
        if exists && on_list {
            if !find_path(&self.available, path.as_str()) {
                let ghost a0 = spellings(self.available@);
                self.available.push(path);
                assert(spellings(self.available@) =~= a0.push(path@));
            }
        } else {
            self.available = without_path(&self.available, path.as_str());
        }
    }

    /// No check could be started for `path`: it is neither waiting for an
    /// answer nor known to exist.
    pub fn check_failed(&mut self, path: &str)
        ensures
            final(self).entries() == old(self).entries(),
            final(self).current() == old(self).current(),
            final(self).pending() == old(self).pending().filter(|p: Seq<char>| !paths_equal(path@, p)),
            final(self).available() == old(self).available().filter(|p: Seq<char>| !paths_equal(path@, p)),
            stepped(*old(self), *final(self), Event::Answer(path@, false)),
    {
        self.pending = without_path(&self.pending, path);
        self.available = without_path(&self.available, path);
    }

    fn offered(&self, entry: &Recent<H>) -> (offered: bool)
        ensures
            offered == self.offers(*entry),
    {
        if !find_path(&self.available, entry.path.as_str()) {
            return false;
        }
        match &self.current {
            Some(current) => !same_path(current.as_str(), entry.path.as_str()),
            None => true,
        }
    }

    /// The entries to offer, in list order: those whose file was found and
    /// that are not the file already open.
    pub fn visible(&self) -> (shown: Vec<Recent<H>>)
        ensures
            copies(self.shown(), shown@),
    {
        let ghost pick = |entry: Recent<H>| self.offers(entry);
        let mut shown: Vec<Recent<H>> = Vec::new();
        let mut k: usize = 0;
        while k < self.entries.len()
            invariant
                k <= self.entries@.len(),
                pick == (|entry: Recent<H>| self.offers(entry)),
                copies(self.entries@.take(k as int).filter(pick), shown@),
            decreases self.entries@.len() - k,
        {
            proof {
                reveal(Seq::filter);
                assert(self.entries@.take(k + 1).drop_last() =~= self.entries@.take(k as int));
            }
            if self.offered(&self.entries[k]) {
                let ghost before = shown@;
                shown.push(copy_entry(&self.entries[k]));
                proof {
                    let f = self.entries@.take(k as int).filter(pick);
                    assert(self.entries@.take(k + 1).filter(pick) == f.push(self.entries@[k as int]));
                    assert forall|i: int| 0 <= i < f.len() + 1 implies #[trigger] copy_of(f.push(self.entries@[k as int])[i], shown@[i]) by {
                        if i < f.len() {
                            assert(copy_of(f[i], before[i]));
                        }
                    }
                }
            }
            k = k + 1;
        }
        assert(self.entries@.take(self.entries@.len() as int) =~= self.entries@);
        shown
    }

    /// The entry the digit `index + 1` opens: one of the first nine offered.
    pub fn shortcut(&self, index: usize) -> (entry: Option<Recent<H>>)
        ensures
            index >= SHORTCUTS || index >= self.shown().len() ==> entry is None,
            index < SHORTCUTS && index < self.shown().len() ==> (entry matches Some(e) && copy_of(self.shown()[index as int], e)),
    {
        if index >= SHORTCUTS {
            return None;
        }
        let mut shown = self.visible();
        if index < shown.len() {
            proof {
                assert(copy_of(self.shown()[index as int], shown@[index as int]));
            }
            Some(shown.remove(index))
        } else {
            None
        }
    }
}

/// The name an entry is listed under: its file name, or the whole path
/// where it has none.
pub open spec fn entry_name(path: Seq<char>) -> Seq<char> {
    match file_name_of(path) {
        Some(name) => name,
        None => path,
    }
}

/// The separator between a repeated name and its directory.
pub open spec fn label_separator() -> Seq<char> {
    seq![' ', '-', ' ']
}

/// What the menu calls entry `i` of `recent`: its file name, unless another
/// entry shares it, in which case the directory holding it follows.
pub open spec fn recent_label<H>(recent: Seq<Recent<H>>, i: int) -> Seq<char> {
    let name = entry_name(recent[i].path@);
    let unique = forall|j: int| 0 <= j < recent.len() && j != i ==> #[trigger] entry_name(recent[j].path@) != name;
    if unique {
        name
    } else {
        match parent_of(recent[i].path@) {
            Some(dir) => if dir.len() > 0 { name + label_separator() + dir } else { name },
            None => name,
        }
    }
}

/// How entries are told apart in the menu: an entry whose file name no
/// other entry has is called by that name alone; an entry whose file name
/// another entry shares is called `name - directory` when it has a
/// directory; so two entries with one file name in different directories
/// get different labels, and every label starts with the file name.
pub proof fn lemma_labels_tell_shared_names_apart<H>(recent: Seq<Recent<H>>, i: int, j: int)
    requires
        0 <= i < recent.len(),
        0 <= j < recent.len(),
    ensures
        recent_label(recent, i).take(entry_name(recent[i].path@).len() as int) == entry_name(recent[i].path@),
        entry_name(recent[i].path@).len() <= recent_label(recent, i).len(),
        (forall|k: int| 0 <= k < recent.len() && k != i ==> entry_name(#[trigger] recent[k].path@) != entry_name(
            recent[i].path@,
        )) ==> recent_label(recent, i) == entry_name(recent[i].path@),
        i != j && entry_name(recent[i].path@) == entry_name(recent[j].path@) ==> match parent_of(recent[i].path@) {
            Some(d) => d.len() > 0 ==> recent_label(recent, i) == entry_name(recent[i].path@) + seq![' ', '-', ' '] + d,
            None => recent_label(recent, i) == entry_name(recent[i].path@),
        },
        i != j && entry_name(recent[i].path@) == entry_name(recent[j].path@) ==> match (
            parent_of(recent[i].path@),
            parent_of(recent[j].path@),
        ) {
            (Some(di), Some(dj)) => di.len() > 0 && dj.len() > 0 && di != dj ==> recent_label(recent, i)
                != recent_label(recent, j),
            _ => true,
        },
{
    let name = entry_name(recent[i].path@);
    assert(recent_label(recent, i).take(name.len() as int) =~= name) by {
        if let Some(d) = parent_of(recent[i].path@) {
            assert((name + label_separator() + d).take(name.len() as int) =~= name);
        }
    }
    if i != j && name == entry_name(recent[j].path@) {
        assert(entry_name(recent[j].path@) == name);
        if let Some(di) = parent_of(recent[i].path@) {
            if let Some(dj) = parent_of(recent[j].path@) {
                if di.len() > 0 && dj.len() > 0 && di != dj {
                    let li = name + label_separator() + di;
                    let lj = name + label_separator() + dj;
                    assert(li.skip(name.len() + 3int) =~= di);
                    assert(lj.skip(name.len() + 3int) =~= dj);
                }
            }
        }
    }
}

fn entry_label(path: &str) -> (name: String)
    ensures
        name@ == entry_name(path@),
{
    match file_name(path) {
        Some(name) => name,
        None => String::from_str(path),
    }
}

/// What a menu calls each entry of the recent list.
pub fn recent_labels<H>(recent: &[Recent<H>]) -> (labels: Vec<String>)
    ensures
        labels@.len() == recent@.len(),
        forall|i: int| 0 <= i < recent@.len() ==> #[trigger] labels@[i]@ == recent_label(recent@, i),
{
    let mut names: Vec<String> = Vec::new();
    let mut k: usize = 0;
    while k < recent.len()
        invariant
            k <= recent@.len(),
            names@.len() == k,
            forall|i: int| 0 <= i < k ==> #[trigger] names@[i]@ == entry_name(recent@[i].path@),
        decreases recent@.len() - k,
    {
        names.push(entry_label(recent[k].path.as_str()));
        k = k + 1;
    }
    let mut labels: Vec<String> = Vec::new();
    let mut i: usize = 0;
    while i < names.len()
        invariant
            i <= names@.len() == recent@.len(),
            labels@.len() == i,
            forall|x: int| 0 <= x < names@.len() ==> #[trigger] names@[x]@ == entry_name(recent@[x].path@),
            forall|x: int| 0 <= x < i ==> #[trigger] labels@[x]@ == recent_label(recent@, x),
        decreases names@.len() - i,
    {
        let mut unique = true;
        let mut j: usize = 0;
        while j < names.len()
            invariant
                j <= names@.len() == recent@.len(),
                i < names@.len(),
                forall|x: int| 0 <= x < names@.len() ==> #[trigger] names@[x]@ == entry_name(recent@[x].path@),
                unique == forall|y: int| 0 <= y < j && y != i ==> #[trigger] entry_name(recent@[y].path@) != entry_name(recent@[i as int].path@),
            decreases names@.len() - j,
        {
            if j != i && names[j] == names[i] {
                unique = false;
            }
            j = j + 1;
        }
        let label = if unique {
            names[i].clone()
        } else {
            match parent(recent[i].path.as_str()) {
                Some(dir) => {
                    let dir_chars = chars_of(dir.as_str());
                    if dir_chars.len() > 0 {
                        let mut label = names[i].clone();
                        push_str(&mut label, " - ");
                        proof {
                            reveal_strlit(" - ");
                            assert(" - "@ =~= label_separator());
                        }
                        push_str(&mut label, dir.as_str());
                        label
                    } else {
                        names[i].clone()
                    }
                },
                None => names[i].clone(),
            }
        };
        labels.push(label);
        i = i + 1;
    }
    labels
}

/// `recent` after opening `path` with `hints`: the entry goes to the head of
/// the list, any entry with an equal path leaves it, and the list keeps at
/// most [`RECENT_LIMIT`] entries.
pub open spec fn remembered<H>(recent: Seq<Recent<H>>, entry: Recent<H>) -> Seq<Recent<H>> {
    let kept = seq![entry] + recent.filter(|e: Recent<H>| !paths_equal(e.path@, entry.path@));
    kept.take(if kept.len() < RECENT_LIMIT { kept.len() as int } else { RECENT_LIMIT as int })
}

/// Put a file at the head of the recent list, with the hints it was opened
/// with this time.
pub fn remember<H>(recent: &mut Vec<Recent<H>>, path: String, hints: H)
    ensures
        final(recent)@ == remembered(old(recent)@, Recent { path, hints }),
{
    let ghost entry = Recent { path, hints };
    let mut old_list: Vec<Recent<H>> = Vec::new();
    std::mem::swap(&mut old_list, recent);
    let ghost start = old_list@;
    let count = old_list.len();
    let ghost keep = |e: Recent<H>| !paths_equal(e.path@, path@);
    let mut kept: Vec<Recent<H>> = Vec::new();
    let mut k: usize = 0;
    while old_list.len() > 0
        invariant
            k + old_list@.len() == start.len(),
            start.len() == count,
            old_list@ == start.skip(k as int),
            keep == (|e: Recent<H>| !paths_equal(e.path@, path@)),
            kept@ == start.take(k as int).filter(keep),
        decreases old_list@.len(),
    {
        proof {
            reveal(Seq::filter);
            assert(start.take(k + 1).drop_last() =~= start.take(k as int));
        }
        let e = old_list.remove(0);
        assert(e == start[k as int]);
        if !same_path(e.path.as_str(), path.as_str()) {
            kept.push(e);
        }
        k = k + 1;
        assert(old_list@ =~= start.skip(k as int));
    }
    assert(start.take(k as int) =~= start);
    let mut list: Vec<Recent<H>> = Vec::new();
    list.push(Recent { path, hints });
    let ghost whole = seq![entry] + start.filter(keep);
    let mut rest = kept;
    list.append(&mut rest);
    assert(list@ =~= whole);
    list.truncate(RECENT_LIMIT);
    proof {
        assert(list@ =~= whole.take(if whole.len() < RECENT_LIMIT { whole.len() as int } else { RECENT_LIMIT as int }));
    }
    *recent = list;
}
/// Remembering a file puts it at the head of the list, leaves no other entry
/// with a path equal to its own, keeps at most [`RECENT_LIMIT`] entries, and
/// keeps the others in the order they had.
pub proof fn lemma_remembered_file_comes_first<H>(recent: Seq<Recent<H>>, entry: Recent<H>)
    ensures
        1 <= remembered(recent, entry).len() <= RECENT_LIMIT,
        remembered(recent, entry)[0] == entry,
        forall|i: int|
            1 <= i < remembered(recent, entry).len() ==> !paths_equal(
                #[trigger] remembered(recent, entry)[i].path@,
                entry.path@,
            ),
        forall|i: int|
            1 <= i < remembered(recent, entry).len() ==> recent.contains(
                #[trigger] remembered(recent, entry)[i],
            ),
{
    let keep = |e: Recent<H>| !paths_equal(e.path@, entry.path@);
    let others = recent.filter(keep);
    let result = remembered(recent, entry);
    assert(result == (seq![entry] + others).take(result.len() as int));
    recent.lemma_filter_len(keep);
    assert forall|i: int| 1 <= i < result.len() implies !paths_equal(
        #[trigger] result[i].path@,
        entry.path@,
    ) && recent.contains(result[i]) by {
        assert(result[i] == others[i - 1]);
        recent.lemma_filter_pred(keep, i - 1);
        assert(others.contains(others[i - 1]));
        recent.lemma_filter_contains_rev(keep, others[i - 1]);
    }
}
/// A check is started only for a path not already waiting for an answer:
/// the paths `after_inserting` adds to `set` come after it, and none of
/// them equals a path `set` already held.
pub proof fn lemma_waiting_paths_are_not_checked_again(set: Seq<Seq<char>>, paths: Seq<Seq<char>>)
    ensures
        after_inserting(set, paths).len() >= set.len(),
        after_inserting(set, paths).take(set.len() as int) == set,
        forall|i: int|
            set.len() <= i < after_inserting(set, paths).len() ==> !listed(
                set,
                #[trigger] after_inserting(set, paths)[i],
            ),
    decreases paths.len(),
{
    if paths.len() > 0 {
        lemma_waiting_paths_are_not_checked_again(set, paths.drop_last());
        let before = after_inserting(set, paths.drop_last());
        let x = paths.last();
        if !listed(before, x) {
            assert(before.push(x).take(set.len() as int) =~= before.take(set.len() as int));
            if listed(set, x) {
                let j = choose|j: int| 0 <= j < set.len() && paths_equal(x, #[trigger] set[j]);
                assert(before[j] == set[j]);
                assert(listed(before, x));
            }
        }
    }
}

/// Path comparison is an equivalence: `Path` is `Eq`, whose `==` is
/// reflexive, symmetric and transitive.
pub open spec fn paths_equal_is_equivalence() -> bool {
    &&& forall|a: Seq<char>| #[trigger] paths_equal(a, a)
    &&& forall|a: Seq<char>, b: Seq<char>| #[trigger] paths_equal(a, b) ==> paths_equal(b, a)
    &&& forall|a: Seq<char>, b: Seq<char>, c: Seq<char>|
        #[trigger] paths_equal(a, b) && #[trigger] paths_equal(b, c) ==> paths_equal(a, c)
}

/// The last answer among `events` for a path equal to `path`: whether it
/// found the file, a path off `entries` counting as not found.
pub open spec fn latest_answer<H>(entries: Seq<Recent<H>>, events: Seq<Event>, path: Seq<char>) -> Option<bool>
    decreases events.len(),
{
    if events.len() == 0 {
        None
    } else {
        match events.last() {
            Event::Answer(q, found) => if paths_equal(q, path) {
                Some(found && on_list(entries, q))
            } else {
                latest_answer(entries, events.drop_last(), path)
            },
            _ => latest_answer(entries, events.drop_last(), path),
        }
    }
}

/// The open file after `events`, starting from `current`: the last one
/// opened, unless it was closed after.
pub open spec fn open_after(current: Option<Seq<char>>, events: Seq<Event>) -> Option<Seq<char>>
    decreases events.len(),
{
    if events.len() == 0 {
        current
    } else {
        match events.last() {
            Event::Open(path) => Some(path),
            Event::Close => None,
            Event::Answer(..) => open_after(current, events.drop_last()),
        }
    }
}

/// Whether `path` is known to exist after `events`, starting from the paths
/// in `available`: the latest answer for it decides, and without one what
/// was known before stands.
pub open spec fn known_after<H>(
    entries: Seq<Recent<H>>,
    available: Seq<Seq<char>>,
    events: Seq<Event>,
    path: Seq<char>,
) -> bool {
    match latest_answer(entries, events, path) {
        Some(found) => found,
        None => listed(available, path),
    }
}

/// Whether `entry` is offered once `events` have happened to `files`: its
/// file is known to exist and it is not the file then open.
pub open spec fn offered_after<H: Clone>(files: RecentFiles<H>, events: Seq<Event>, entry: Recent<H>) -> bool {
    &&& known_after(files.entries(), files.available(), events, entry.path@)
    &&& !(open_after(files.current(), events) matches Some(c) && paths_equal(c, entry.path@))
}

/// An answer for `q` settles whether paths equal to `q` are known to exist,
/// and leaves the others as they were.
proof fn lemma_answered_lists(available: Seq<Seq<char>>, q: Seq<char>, found: bool, p: Seq<char>)
    requires
        paths_equal_is_equivalence(),
    ensures
        listed(answered(available, q, found), p) == if paths_equal(q, p) {
            found
        } else {
            listed(available, p)
        },
{
    if found {
        if !listed(available, q) {
            let pushed = available.push(q);
            if paths_equal(q, p) {
                assert(paths_equal(p, pushed[available.len() as int]));
            }
            if listed(pushed, p) && !paths_equal(q, p) {
                let i = choose|i: int| 0 <= i < pushed.len() && paths_equal(p, #[trigger] pushed[i]);
                assert(i < available.len());
                assert(paths_equal(p, available[i]));
            }
            if listed(available, p) {
                let i = choose|i: int| 0 <= i < available.len() && paths_equal(p, #[trigger] available[i]);
                assert(paths_equal(p, pushed[i]));
            }
        } else if paths_equal(q, p) {
            let i = choose|i: int| 0 <= i < available.len() && paths_equal(q, #[trigger] available[i]);
            assert(paths_equal(p, q));
            assert(paths_equal(p, available[i]));
        }
    } else {
        let keep = |x: Seq<char>| !paths_equal(q, x);
        let kept = available.filter(keep);
        if listed(kept, p) {
            let i = choose|i: int| 0 <= i < kept.len() && paths_equal(p, #[trigger] kept[i]);
            let a = kept[i];
            assert(kept.contains(a));
            available.lemma_filter_contains_rev(keep, a);
            assert(!paths_equal(q, a));
            if paths_equal(q, p) {
                assert(paths_equal(q, a));
            }
            let j = choose|j: int| 0 <= j < available.len() && available[j] == a;
            assert(paths_equal(p, available[j]));
        }
        if !paths_equal(q, p) && listed(available, p) {
            let j = choose|j: int| 0 <= j < available.len() && paths_equal(p, #[trigger] available[j]);
            let a = available[j];
            if paths_equal(q, a) {
                assert(paths_equal(a, p));
                assert(paths_equal(q, p));
            }
            available.lemma_filter_contains(keep, j);
            let k = choose|k: int| 0 <= k < kept.len() && kept[k] == a;
            assert(paths_equal(p, kept[k]));
        }
    }
}

/// What the list offers after any run of answers, openings and closings
/// follows from the run alone. The history stays as it was; the open file
/// is the last one opened, unless it was closed after; a path is known to
/// exist when the latest answer for it found the file while it was on the
/// list (and, without an answer, when it was known before); and the menu
/// offers the history's entries known to exist that are not the open file,
/// in history order. `states[i + 1]` is `states[i]` after `events[i]`.
pub proof fn lemma_latest_answers_decide<H: Clone>(states: Seq<RecentFiles<H>>, events: Seq<Event>)
    requires
        paths_equal_is_equivalence(),
        states.len() == events.len() + 1,
        forall|i: int| 0 <= i < events.len() ==> stepped(#[trigger] states[i], states[i + 1], events[i]),
    ensures
        states.last().entries() == states[0].entries(),
        states.last().current() == open_after(states[0].current(), events),
        forall|p: Seq<char>|
            #[trigger] listed(states.last().available(), p) == known_after(
                states[0].entries(),
                states[0].available(),
                events,
                p,
            ),
        states.last().shown() == states[0].entries().filter(
            |entry: Recent<H>| offered_after(states[0], events, entry),
        ),
    decreases events.len(),
{
    let first = states[0];
    let last = states.last();
    if events.len() > 0 {
        let n = events.len() - 1;
        let earlier = states.drop_last();
        assert forall|i: int| 0 <= i < events.drop_last().len() implies stepped(
            #[trigger] earlier[i],
            earlier[i + 1],
            events.drop_last()[i],
        ) by {
            assert(stepped(states[i], states[i + 1], events[i]));
        }
        lemma_latest_answers_decide(earlier, events.drop_last());
        let before = states[n];
        assert(earlier.last() == before);
        assert(stepped(states[n], states[n + 1], events[n]));
        assert(states[n + 1] == last);
        assert forall|p: Seq<char>| #[trigger] listed(last.available(), p) == known_after(
            first.entries(),
            first.available(),
            events,
            p,
        ) by {
            assert(listed(before.available(), p) == known_after(
                first.entries(),
                first.available(),
                events.drop_last(),
                p,
            ));
            match events.last() {
                Event::Answer(q, found) => {
                    lemma_answered_lists(before.available(), q, found && on_list(before.entries(), q), p);
                },
                _ => {},
            }
        }
    }
    let offered = |entry: Recent<H>| last.offers(entry);
    let expected = |entry: Recent<H>| offered_after(first, events, entry);
    assert forall|entry: Recent<H>| #[trigger] offered(entry) == expected(entry) by {
        assert(listed(last.available(), entry.path@) == known_after(
            first.entries(),
            first.available(),
            events,
            entry.path@,
        ));
    }
    assert(offered =~= expected);
}

/// What the menu offers follows the history: every offered entry is one of
/// the history's, found to exist and not the open file; every such entry of
/// the history is offered; and they come in history order, since what is
/// offered is the history with the others left out. The shortcut for digit
/// `i + 1` is the `i`-th of them (see `shortcut`).
pub proof fn lemma_offers_follow_history<H: Clone>(files: RecentFiles<H>)
    ensures
        files.shown() == files.entries().filter(|entry: Recent<H>| files.offers(entry)),
        files.shown().len() <= files.entries().len(),
        forall|i: int|
            0 <= i < files.shown().len() ==> files.entries().contains(#[trigger] files.shown()[i])
                && files.offers(files.shown()[i]),
        forall|i: int|
            0 <= i < files.entries().len() && files.offers(#[trigger] files.entries()[i])
                ==> files.shown().contains(files.entries()[i]),
{
    let pick = |entry: Recent<H>| files.offers(entry);
    let entries = files.entries();
    entries.lemma_filter_len(pick);
    assert forall|i: int| 0 <= i < files.shown().len() implies entries.contains(
        #[trigger] files.shown()[i],
    ) && files.offers(files.shown()[i]) by {
        entries.lemma_filter_pred(pick, i);
        assert(entries.filter(pick).contains(files.shown()[i]));
        entries.lemma_filter_contains_rev(pick, files.shown()[i]);
    }
    assert forall|i: int| 0 <= i < entries.len() && files.offers(#[trigger] entries[i]) implies files.shown().contains(
        entries[i],
    ) by {
        entries.lemma_filter_contains(pick, i);
    }
}

/// A file found to exist is offered: after `apply` records a path on the
/// list as existing (adding it to what is known), every history entry with
/// that path is offered unless it is the open file.
pub proof fn lemma_found_file_is_offered<H: Clone>(
    before: RecentFiles<H>,
    after: RecentFiles<H>,
    path: Seq<char>,
    entry: Recent<H>,
)
    requires
        after.entries() == before.entries(),
        after.current() == before.current(),
        after.available() == before.available().push(path),
        after.entries().contains(entry),
        paths_equal(entry.path@, path),
        !(after.current() matches Some(c) && paths_equal(c, entry.path@)),
    ensures
        after.shown().contains(entry),
{
    let last = after.available().len() - 1;
    assert(after.available()[last] == path);
    assert(listed(after.available(), entry.path@));
    assert(after.offers(entry));
    let i = choose|i: int| 0 <= i < after.entries().len() && after.entries()[i] == entry;
    lemma_offers_follow_history(after);
    assert(after.offers(after.entries()[i]));
}

} // verus!
