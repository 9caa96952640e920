//! The walk through a directory tree: which directories to read, in which order, and which of the
//! files met on the way are watched. Whoever drives the walk reads directories and resolves links;
//! the walk itself decides what comes next.
//!
//! At each level the real subdirectories come before the linked ones, and every directory is read
//! once, under the name by which it is first reached.

use vstd::prelude::*;

use crate::glob;
use crate::table;
use crate::table::Table;
use crate::watch::{Listed, Stamp, Survey, WatchService};

verus! {

/// What a name in a directory stands for.
#[derive(Debug, Clone, Copy, PartialEq, Eq, Structural)]
pub enum Kind {
    /// A file.
    File,
    /// A directory.
    Dir,
    /// A symbolic link.
    Link,
    /// Something else.
    Other,
}

/// One name in a directory.
#[derive(Debug)]
pub struct Entry {
    /// By what the driver knows it again.
    pub token: u64,
    /// Its full path.
    pub path: String,
    /// Its name, if it has one.
    pub name: Option<String>,
    /// What it is itself, if the system says.
    pub kind: Option<Kind>,
    /// What it leads to where it is a link, unless it leads nowhere.
    pub target: Option<Kind>,
    /// The stamp of the file that it is or leads to, if the system says.
    pub stamp: Option<Stamp>,
    /// Where a directory that is no link really lies.
    pub canon: String,
}

/// A directory still to be read.
#[derive(Debug)]
pub struct Pending {
    /// By what the driver knows it.
    pub token: u64,
    /// Where it really lies; for a link this is still to be found out.
    pub canon: Option<String>,
    /// How many levels below the watched directory it is.
    pub level: i32,
}

/// What is to be done next.
#[derive(Debug, Clone, Copy, PartialEq, Eq, Structural)]
pub enum Step {
    /// Read this directory.
    Read(u64),
    /// Find out where this linked directory really lies.
    Resolve(u64),
    /// Nothing.
    Done,
}

/// What an entry counts as.
#[derive(Debug, Clone, Copy, PartialEq, Eq, Structural)]
pub enum Class {
    /// Nothing.
    Skip,
    /// A file.
    File,
    /// A directory.
    RealDir,
    /// A link to a directory.
    LinkDir,
}

// ---------------------------------------------------------------------------------------------
// Model
// ---------------------------------------------------------------------------------------------

/// What a link leads to counts, and a link that leads nowhere does not.
pub open spec fn class_of(e: Entry) -> Class {
    match e.kind {
        None => Class::Skip,
        Some(Kind::File) => Class::File,
        Some(Kind::Dir) => Class::RealDir,
        Some(Kind::Other) => Class::Skip,
        Some(Kind::Link) => match e.target {
            Some(Kind::File) => Class::File,
            Some(Kind::Dir) => Class::LinkDir,
            _ => Class::Skip,
        },
    }
}

/// Whether an entry is a watched file whose stamp is known.
pub open spec fn is_watched(patterns: Seq<Seq<char>>, e: Entry) -> bool {
    &&& class_of(e) is File
    &&& e.stamp is Some
    &&& e.name matches Some(n) && glob::fits(patterns, n@)
}

/// The watched files among the entries of a directory.
pub open spec fn watched_files(patterns: Seq<Seq<char>>, entries: Seq<Entry>) -> Seq<Listed>
    decreases entries.len(),
{
    if entries.len() == 0 {
        seq![]
    } else {
        let before = watched_files(patterns, entries.drop_last());
        let e = entries.last();
        if is_watched(patterns, e) {
            before.push(Listed { path: e.path, stamp: e.stamp->0 })
        } else {
            before
        }
    }
}

/// The directories of one class among the entries of a directory, one level down.
pub open spec fn subdirs(entries: Seq<Entry>, level: i32, links: bool) -> Seq<Pending>
    decreases entries.len(),
{
    if entries.len() == 0 {
        seq![]
    } else {
        let before = subdirs(entries.drop_last(), level, links);
        let e = entries.last();
        if links && class_of(e) is LinkDir {
            before.push(Pending { token: e.token, canon: None, level: (level + 1) as i32 })
        } else if !links && class_of(e) is RealDir && e.name is Some {
            before.push(Pending { token: e.token, canon: Some(e.canon), level: (level + 1) as i32 })
        } else {
            before
        }
    }
}

/// A walk under way.
#[verifier::ext_equal]
pub struct Walking {
    /// How many levels down the walk goes.
    pub depth: int,
    /// What is still to be read; the last comes first.
    pub stack: Seq<Pending>,
    /// Where the directories lie that were read or are being read.
    pub visited: Seq<(Seq<char>, bool)>,
    /// The watched files met so far.
    pub files: Seq<Listed>,
    /// How many directories were read.
    pub dirs: usize,
    /// The directory that is being read or resolved.
    pub current: Pending,
}

/// Whether a place was visited.
pub open spec fn was_visited(w: Walking, canon: Seq<char>) -> bool {
    table::lookup(w.visited, canon) is Some
}

/// The walk with a place visited.
pub open spec fn with_visit(w: Walking, canon: Seq<char>) -> Walking {
    Walking { visited: table::put(w.visited, canon, true), ..w }
}

/// The walk once the current directory was read.
pub open spec fn after_listing(
    w: Walking,
    patterns: Seq<Seq<char>>,
    entries: Option<Seq<Entry>>,
) -> Walking {
    match entries {
        None => w,
        Some(es) => Walking {
            dirs: if w.dirs == usize::MAX {
                w.dirs
            } else {
                (w.dirs + 1) as usize
            },
            files: w.files + watched_files(patterns, es),
            stack: if w.current.level >= w.depth {
                w.stack
            } else {
                w.stack + (subdirs(es, w.current.level, false) + subdirs(
                    es,
                    w.current.level,
                    true,
                )).reverse()
            },
            ..w
        },
    }
}

/// The walk once the next step was asked for.
pub open spec fn advanced(w: Walking) -> Walking
    decreases w.stack.len(),
{
    if w.stack.len() == 0 {
        w
    } else {
        let t = w.stack.last();
        let rest = Walking { stack: w.stack.drop_last(), ..w };
        match t.canon {
            None => Walking { current: t, ..rest },
            Some(c) => if was_visited(w, c@) {
                advanced(rest)
            } else {
                Walking { current: t, ..with_visit(rest, c@) }
            },
        }
    }
}

/// The next step.
pub open spec fn next_step(w: Walking) -> Step
    decreases w.stack.len(),
{
    if w.stack.len() == 0 {
        Step::Done
    } else {
        let t = w.stack.last();
        match t.canon {
            None => Step::Resolve(t.token),
            Some(c) => if was_visited(w, c@) {
                next_step(Walking { stack: w.stack.drop_last(), ..w })
            } else {
                Step::Read(t.token)
            },
        }
    }
}

/// The walk once it was found out where the current link leads.
pub open spec fn after_resolving(w: Walking, canon: Option<Seq<char>>) -> Walking {
    match canon {
        Some(c) if !was_visited(w, c) => with_visit(w, c),
        _ => w,
    }
}

/// Whether the directory behind the current link is to be read.
pub open spec fn link_is_new(w: Walking, canon: Option<Seq<char>>) -> bool {
    canon matches Some(c) && !was_visited(w, c)
}

/// No directory below the depth limit waits to be read.
pub open spec fn within_depth(w: Walking) -> bool {
    forall|i: int| 0 <= i < w.stack.len() ==> 0 <= (#[trigger] w.stack[i]).level <= w.depth
}

// ---------------------------------------------------------------------------------------------
// The walk
// ---------------------------------------------------------------------------------------------

/// A walk under way.
#[derive(Debug)]
pub struct Walk {
    depth: i32,
    stack: Vec<Pending>,
    visited: Table<bool>,
    files: Vec<Listed>,
    dirs: usize,
    current: Pending,
}

impl View for Walk {
    type V = Walking;

    closed spec fn view(&self) -> Walking {
        Walking {
            depth: self.depth as int,
            stack: self.stack@,
            visited: self.visited@,
            files: self.files@,
            dirs: self.dirs,
            current: self.current,
        }
    }
}

fn classify(e: &Entry) -> (r: Class)
    ensures
        r == class_of(*e),
{
    match e.kind {
        None => Class::Skip,
        Some(Kind::File) => Class::File,
        Some(Kind::Dir) => Class::RealDir,
        Some(Kind::Other) => Class::Skip,
        Some(Kind::Link) => match e.target {
            Some(Kind::File) => Class::File,
            Some(Kind::Dir) => Class::LinkDir,
            _ => Class::Skip,
        },
    }
}

impl Walk {
    /// What always holds.
    pub closed spec fn wf(&self) -> bool {
        &&& self.visited.wf()
        &&& within_depth(self@)
        &&& 0 <= self.depth <= crate::watch::MAX_DEPTH
        &&& 0 <= self.current.level <= self.depth
    }

    /// What the invariant says.
    pub proof fn lemma_wf(&self)
        requires
            self.wf(),
        ensures
            within_depth(self@),
            0 <= self@.current.level <= self@.depth,
            table::ordered(self@.visited),
    {
        self.visited.lemma_ordered();
    }

    /// A walk that starts at the directory of `service`, which the driver knows by `token` and
    /// which really lies at `canon`. That directory is to be read first.
    pub fn new(service: &WatchService, token: u64, canon: String) -> (r: Self)
        requires
            service.wf(),
        ensures
            r.wf(),
            r@ == (Walking {
                depth: service.levels(),
                stack: seq![],
                visited: seq![(canon@, true)],
                files: seq![],
                dirs: 0,
                current: Pending { token, canon: Some(canon), level: 0 },
            }),
    {
        proof {
            service.lemma_sound();
        }
        let mut visited: Table<bool> = Table::new();
        visited.insert(canon.as_str(), true);
        let r = Walk {
            depth: service.depth(),
            stack: Vec::new(),
            visited,
            files: Vec::new(),
            dirs: 0,
            current: Pending { token, canon: Some(canon), level: 0 },
        };
        assert(r@.visited =~= seq![(canon@, true)]);
        r
    }

    /// Takes what reading the current directory brought. One that cannot be read is passed over.
    pub fn listed(&mut self, service: &WatchService, entries: Option<Vec<Entry>>)
        requires
            old(self).wf(),
        ensures
            final(self).wf(),
            final(self)@ == after_listing(
                old(self)@,
                service.patterns(),
                match entries {
                    Some(es) => Some(es@),
                    None => None,
                },
            ),
    {
        let ghost w0 = self@;
        match entries {
            None => {},
            Some(es) => {
                self.dirs = if self.dirs == usize::MAX {
                    self.dirs
                } else {
                    self.dirs + 1
                };
                let mut dirs_here: Vec<Pending> = Vec::new();
                let mut links: Vec<Pending> = Vec::new();
                let level = self.current.level;
                let mut i: usize = 0;
                assert(es@.take(0) =~= Seq::<Entry>::empty());
                assert(w0.files + watched_files(service.patterns(), es@.take(0)) =~= w0.files);
                let ghost base = self.files@;
                while i < es.len()
                    invariant
                        i <= es@.len(),
                        0 <= level < i32::MAX,
                        self.files@ == base + watched_files(
                            service.patterns(),
                            es@.take(i as int),
                        ),
                        *self == (Walk { files: self.files, dirs: self.dirs, ..*old(self) }),
                        self.dirs == after_listing(w0, service.patterns(), Some(es@)).dirs,
                        dirs_here@ == subdirs(es@.take(i as int), level, false),
                        links@ == subdirs(es@.take(i as int), level, true),
                    decreases es@.len() - i,
                {
                    let e = &es[i];
                    let ghost next = es@.take(i as int + 1);
                    proof {
                        assert(next.drop_last() =~= es@.take(i as int));
                        assert(next.last() == *e);
                    }
                    match classify(e) {
                        Class::Skip => {},
                        Class::RealDir => {
                            if e.name.is_some() {
                                dirs_here.push(
                                    Pending {
                                        token: e.token,
                                        canon: Some(e.canon.clone()),
                                        level: level + 1,
                                    },
                                );
                            }
                        },
                        Class::LinkDir => {
                            links.push(Pending { token: e.token, canon: None, level: level + 1 });
                        },
                        Class::File => {
                            if let Some(name) = &e.name {
                                if service.wants(name.as_str()) {
                                    if let Some(stamp) = e.stamp {
                                        self.files.push(Listed { path: e.path.clone(), stamp });
                                    }
                                }
                            }
                        },
                    }
                    assert(self.files@ =~= base + watched_files(service.patterns(), next));
                    i += 1;
                }
                assert(es@.take(i as int) =~= es@);
                if level < self.depth {
                    let ghost mid = self.stack@;
                    proof {
                        lemma_subdirs_level(es@, level, false);
                        lemma_subdirs_level(es@, level, true);
                    }
                    push_reversed(&mut self.stack, links);
                    push_reversed(&mut self.stack, dirs_here);
                    proof {
                        let down = subdirs(es@, level, false) + subdirs(es@, level, true);
                        assert(self.stack@ =~= mid + down.reverse());
                        assert forall|k: int| 0 <= k < self.stack@.len() implies 0 <= (
                        #[trigger] self.stack@[k]).level <= self.depth by {
                            if k < mid.len() {
                                assert(self.stack@[k] == w0.stack[k]);
                            } else {
                                let d = down.len() - 1 - (k - mid.len());
                                assert(self.stack@[k] == down[d]);
                                if d < subdirs(es@, level, false).len() {
                                    assert(down[d] == subdirs(es@, level, false)[d]);
                                } else {
                                    assert(down[d] == subdirs(es@, level, true)[d - subdirs(
                                        es@,
                                        level,
                                        false,
                                    ).len()]);
                                }
                            }
                        }
                    }
                }
            },
        }
    }

    /// Says what is to be done next. A directory that was visited before is passed over.
    pub fn next(&mut self) -> (r: Step)
        requires
            old(self).wf(),
        ensures
            final(self).wf(),
            final(self)@ == advanced(old(self)@),
            r == next_step(old(self)@),
    {
        let ghost w0 = self@;
        while self.stack.len() > 0
            invariant
                self.wf(),
                w0 == old(self)@,
                advanced(self@) == advanced(w0),
                next_step(self@) == next_step(w0),
            decreases self.stack@.len(),
        {
            let ghost before = self@;
            let t = match self.stack.pop() {
                Some(t) => t,
                None => return Step::Done,
            };
            proof {
                assert(t == before.stack.last());
                assert(before.stack[before.stack.len() - 1] == t);
                assert forall|k: int| 0 <= k < self.stack@.len() implies 0 <= (
                #[trigger] self.stack@[k]).level <= self.depth by {
                    assert(self.stack@[k] == before.stack[k]);
                }
            }
            let token = t.token;
            let known = match &t.canon {
                None => {
                    self.current = t;
                    return Step::Resolve(token);
                },
                Some(c) => {
                    let known = self.visited.get(c.as_str()).is_some();
                    if !known {
                        self.visited.insert(c.as_str(), true);
                    }
                    known
                },
            };
            if !known {
                self.current = t;
                return Step::Read(token);
            }
        }
        Step::Done
    }

    /// Takes where the current link leads, if it leads anywhere, and says whether to read the
    /// directory there.
    pub fn resolved(&mut self, canon: Option<String>) -> (r: bool)
        requires
            old(self).wf(),
        ensures
            final(self).wf(),
            final(self)@ == after_resolving(
                old(self)@,
                match canon {
                    Some(c) => Some(c@),
                    None => None,
                },
            ),
            r == link_is_new(
                old(self)@,
                match canon {
                    Some(c) => Some(c@),
                    None => None,
                },
            ),
    {
        match canon {
            None => false,
            Some(c) => {
                if self.visited.get(c.as_str()).is_some() {
                    false
                } else {
                    self.visited.insert(c.as_str(), true);
                    true
                }
            },
        }
    }

    /// What the walk brought.
    pub fn into_survey(self) -> (r: Survey)
        ensures
            r.files@ == self@.files,
            r.dirs == self@.dirs,
    {
        Survey { files: self.files, dirs: self.dirs }
    }
}

fn push_reversed(stack: &mut Vec<Pending>, items: Vec<Pending>)
    ensures
        final(stack)@ == old(stack)@ + items@.reverse(),
{
    let ghost before = stack@;
    let ghost all = items@;
    let mut items = items;
    while items.len() > 0
        invariant
            before == old(stack)@,
            items@.len() <= all.len(),
            items@ == all.take(items@.len() as int),
            stack@ == before + all.skip(items@.len() as int).reverse(),
        decreases items@.len(),
    {
        let ghost n = items@.len() as int;
        match items.pop() {
            Some(t) => {
                stack.push(t);
                proof {
                    assert(t == all[n - 1]);
                    assert(items@ =~= all.take(n - 1));
                    assert(stack@ =~= before + all.skip(n - 1).reverse());
                }
            },
            None => {},
        }
    }
    assert(all.skip(0) =~= all);
}

proof fn lemma_subdirs_level(entries: Seq<Entry>, level: i32, links: bool)
    requires
        0 <= level < i32::MAX,
    ensures
        forall|i: int|
            0 <= i < subdirs(entries, level, links).len() ==> (#[trigger] subdirs(
                entries,
                level,
                links,
            )[i]).level == level + 1,
    decreases entries.len(),
{
    if entries.len() > 0 {
        lemma_subdirs_level(entries.drop_last(), level, links);
    }
}

// ---------------------------------------------------------------------------------------------
// Laws
// ---------------------------------------------------------------------------------------------

/// No place is read twice: whatever step is next, places visited stay so, and a directory to be
/// read lies at a place that was not visited before and is from then on.
pub proof fn every_place_is_read_once(w: Walking, c: Seq<char>)
    requires
        table::ordered(w.visited),
    ensures
        table::ordered(advanced(w).visited),
        was_visited(w, c) ==> was_visited(advanced(w), c),
        next_step(w) is Read ==> {
            &&& advanced(w).current.canon is Some
            &&& !was_visited(w, advanced(w).current.canon->0@)
            &&& was_visited(advanced(w), advanced(w).current.canon->0@)
            &&& next_step(w) == Step::Read(advanced(w).current.token)
        },
    decreases w.stack.len(),
{
    if w.stack.len() > 0 {
        let t = w.stack.last();
        if let Some(p) = t.canon {
            if was_visited(w, p@) {
                every_place_is_read_once(Walking { stack: w.stack.drop_last(), ..w }, c);
            } else {
                table::put_then_lookup(w.visited, p@, true, c);
                table::put_then_lookup(w.visited, p@, true, p@);
            }
        }
    }
}

/// A link is followed only to a place that was not visited before, and that place then counts as
/// visited: two names of one directory show its files once, and a link back up costs nothing.
pub proof fn aliases_are_walked_once(w: Walking, canon: Seq<char>)
    requires
        table::ordered(w.visited),
    ensures
        link_is_new(w, Some(canon)) == !was_visited(w, canon),
        was_visited(after_resolving(w, Some(canon)), canon),
        !link_is_new(after_resolving(w, Some(canon)), Some(canon)),
{
    table::put_then_lookup(w.visited, canon, true, canon);
}

/// The real subdirectories of a directory come before its links.
pub proof fn real_directories_come_first(
    w: Walking,
    patterns: Seq<Seq<char>>,
    es: Seq<Entry>,
)
    requires
        w.current.level < w.depth,
        subdirs(es, w.current.level, false).len() > 0,
    ensures
        after_listing(w, patterns, Some(es)).stack.last() == subdirs(
            es,
            w.current.level,
            false,
        )[0],
{
}

/// Every entry of a listing counts for itself, at whatever level the directory lies: a file, or a
/// link to one, that has a stamp and a name that fits is added to the files met before, and no
/// other entry adds any.
pub proof fn every_matching_file_is_listed(
    w: Walking,
    patterns: Seq<Seq<char>>,
    es: Seq<Entry>,
    e: Entry,
)
    ensures
        after_listing(w, patterns, None).files == w.files,
        after_listing(w, patterns, Some(seq![])).files == w.files,
        after_listing(w, patterns, Some(es.push(e))).files == (if (e.kind == Some(Kind::File) || (
        e.kind == Some(Kind::Link) && e.target == Some(Kind::File))) && e.stamp is Some && (
        e.name is Some && glob::fits(patterns, e.name->0@)) {
            after_listing(w, patterns, Some(es)).files.push(
                Listed { path: e.path, stamp: e.stamp->0 },
            )
        } else {
            after_listing(w, patterns, Some(es)).files
        }),
{
    assert(es.push(e).drop_last() =~= es);
    assert(w.files + watched_files(patterns, seq![]) =~= w.files);
    let a = watched_files(patterns, es);
    let f = Listed { path: e.path, stamp: e.stamp->0 };
    assert(w.files + a.push(f) =~= (w.files + a).push(f));
}

/// The entries that are kept, as files.
spec fn kept(keeps: spec_fn(Entry) -> bool, es: Seq<Entry>) -> Seq<Listed>
    decreases es.len(),
{
    if es.len() == 0 {
        seq![]
    } else if keeps(es.last()) {
        kept(keeps, es.drop_last()).push(Listed { path: es.last().path, stamp: es.last().stamp->0 })
    } else {
        kept(keeps, es.drop_last())
    }
}

/// Each entry that is kept is among the files, and each of the files is such an entry.
proof fn lemma_kept(keeps: spec_fn(Entry) -> bool, es: Seq<Entry>)
    ensures
        forall|i: int|
            0 <= i < es.len() && keeps(#[trigger] es[i]) ==> exists|k: int|
                0 <= k < kept(keeps, es).len() && (#[trigger] kept(keeps, es)[k]) == (Listed {
                    path: es[i].path,
                    stamp: es[i].stamp->0,
                }),
        forall|k: int|
            0 <= k < kept(keeps, es).len() ==> exists|i: int|
                0 <= i < es.len() && keeps(#[trigger] es[i]) && (#[trigger] kept(keeps, es)[k])
                    == (Listed { path: es[i].path, stamp: es[i].stamp->0 }),
    decreases es.len(),
{
    if es.len() > 0 {
        let init = es.drop_last();
        let last = es.len() - 1;
        let b = kept(keeps, init);
        let a = kept(keeps, es);
        lemma_kept(keeps, init);
        assert forall|i: int| 0 <= i < es.len() && keeps(#[trigger] es[i]) implies exists|k: int|
            0 <= k < a.len() && (#[trigger] a[k]) == (Listed {
                path: es[i].path,
                stamp: es[i].stamp->0,
            }) by {
            if i < last {
                assert(init[i] == es[i]);
                let k = choose|k: int|
                    0 <= k < b.len() && (#[trigger] b[k]) == (Listed {
                        path: init[i].path,
                        stamp: init[i].stamp->0,
                    });
                assert(a[k] == b[k]);
            } else {
                assert(a[b.len() as int] == (Listed { path: es[i].path, stamp: es[i].stamp->0 }));
            }
        }
        assert forall|k: int| 0 <= k < a.len() implies exists|i: int|
            0 <= i < es.len() && keeps(#[trigger] es[i]) && (#[trigger] a[k]) == (Listed {
                path: es[i].path,
                stamp: es[i].stamp->0,
            }) by {
            if k < b.len() {
                assert(a[k] == b[k]);
                let i = choose|i: int|
                    0 <= i < init.len() && keeps(#[trigger] init[i]) && b[k] == (Listed {
                        path: init[i].path,
                        stamp: init[i].stamp->0,
                    });
                assert(es[i] == init[i]);
            } else {
                assert(keeps(es[last]));
            }
        }
    }
}

/// An entry that is watched: a file, or a link to one, with a stamp and a name that fits.
spec fn keeping(patterns: Seq<Seq<char>>) -> spec_fn(Entry) -> bool {
    |e: Entry|
        (e.kind == Some(Kind::File) || (e.kind == Some(Kind::Link) && e.target == Some(
            Kind::File,
        ))) && e.stamp is Some && e.name is Some && glob::fits(patterns, e.name->0@)
}

proof fn lemma_listing_is_kept(w: Walking, patterns: Seq<Seq<char>>, es: Seq<Entry>)
    ensures
        after_listing(w, patterns, Some(es)).files == w.files + kept(keeping(patterns), es),
    decreases es.len(),
{
    let keeps = keeping(patterns);
    if es.len() == 0 {
        assert(es =~= seq![]);
        every_matching_file_is_listed(w, patterns, es, arbitrary());
        assert(w.files + kept(keeps, es) =~= w.files);
    } else {
        let init = es.drop_last();
        lemma_listing_is_kept(w, patterns, init);
        every_matching_file_is_listed(w, patterns, init, es.last());
        assert(init.push(es.last()) =~= es);
        assert(w.files + kept(keeps, es) =~= (if keeps(es.last()) {
            (w.files + kept(keeps, init)).push(
                Listed { path: es.last().path, stamp: es.last().stamp->0 },
            )
        } else {
            w.files + kept(keeps, init)
        }));
    }
}

/// At the end of a listing the files met before stand first, every file of the listing that is
/// watched is among the others, and each of the others is such a file.
pub proof fn a_listing_adds_its_matching_files(
    w: Walking,
    patterns: Seq<Seq<char>>,
    es: Seq<Entry>,
)
    ensures
        w.files.is_prefix_of(after_listing(w, patterns, Some(es)).files),
        forall|i: int|
            0 <= i < es.len() && ((#[trigger] es[i]).kind == Some(Kind::File) || (es[i].kind
                == Some(Kind::Link) && es[i].target == Some(Kind::File))) && es[i].stamp is Some
                && es[i].name is Some && glob::fits(patterns, es[i].name->0@)
                ==> exists|k: int|
                w.files.len() <= k < after_listing(w, patterns, Some(es)).files.len() && (
                #[trigger] after_listing(w, patterns, Some(es)).files[k]) == (Listed {
                    path: es[i].path,
                    stamp: es[i].stamp->0,
                }),
        forall|k: int|
            w.files.len() <= k < after_listing(w, patterns, Some(es)).files.len()
                ==> exists|i: int|
                0 <= i < es.len() && ((#[trigger] es[i]).kind == Some(Kind::File) || (es[i].kind
                    == Some(Kind::Link) && es[i].target == Some(Kind::File))) && es[i].stamp is Some
                    && es[i].name is Some && glob::fits(patterns, es[i].name->0@) && (
                #[trigger] after_listing(w, patterns, Some(es)).files[k]) == (Listed {
                    path: es[i].path,
                    stamp: es[i].stamp->0,
                }),
{
    let keeps = keeping(patterns);
    let added = kept(keeps, es);
    let all = after_listing(w, patterns, Some(es)).files;
    lemma_listing_is_kept(w, patterns, es);
    lemma_kept(keeps, es);
    assert forall|i: int|
        0 <= i < es.len() && ((#[trigger] es[i]).kind == Some(Kind::File) || (es[i].kind == Some(
            Kind::Link,
        ) && es[i].target == Some(Kind::File))) && es[i].stamp is Some && es[i].name is Some
            && glob::fits(patterns, es[i].name->0@) implies exists|k: int|
        w.files.len() <= k < all.len() && (#[trigger] all[k]) == (Listed {
            path: es[i].path,
            stamp: es[i].stamp->0,
        }) by {
        assert(keeps(es[i]));
        let k = choose|k: int|
            0 <= k < added.len() && (#[trigger] added[k]) == (Listed {
                path: es[i].path,
                stamp: es[i].stamp->0,
            });
        assert(all[w.files.len() + k] == added[k]);
    }
    assert forall|k: int| w.files.len() <= k < all.len() implies exists|i: int|
        0 <= i < es.len() && ((#[trigger] es[i]).kind == Some(Kind::File) || (es[i].kind == Some(
            Kind::Link,
        ) && es[i].target == Some(Kind::File))) && es[i].stamp is Some && es[i].name is Some
            && glob::fits(patterns, es[i].name->0@) && (#[trigger] all[k]) == (Listed {
            path: es[i].path,
            stamp: es[i].stamp->0,
        }) by {
        assert(all[k] == added[k - w.files.len()]);
        let i = choose|i: int|
            0 <= i < es.len() && keeps(#[trigger] es[i]) && added[k - w.files.len()] == (Listed {
                path: es[i].path,
                stamp: es[i].stamp->0,
            });
        assert(keeps(es[i]));
    }
}

/// What can happen in a walk.
pub enum Move {
    /// The current directory was read, if it could be.
    Listed(Option<Seq<Entry>>),
    /// The next step was asked for.
    Next,
    /// It was found out where the current link leads, if anywhere.
    Resolved(Option<Seq<char>>),
}

/// The walk after moves.
pub open spec fn walked(w: Walking, patterns: Seq<Seq<char>>, moves: Seq<Move>) -> Walking
    decreases moves.len(),
{
    if moves.len() == 0 {
        w
    } else {
        let before = walked(w, patterns, moves.drop_last());
        match moves.last() {
            Move::Listed(es) => after_listing(before, patterns, es),
            Move::Next => advanced(before),
            Move::Resolved(canon) => after_resolving(before, canon),
        }
    }
}

/// A survey holds exactly the watched files of the directories that were read: whatever the order
/// of the moves and the levels of the directories, every such file of every listing is there, and
/// every file beyond those met before comes from a listing.
pub proof fn a_survey_holds_all_matching_files(
    w: Walking,
    patterns: Seq<Seq<char>>,
    moves: Seq<Move>,
)
    ensures
        w.files.is_prefix_of(walked(w, patterns, moves).files),
        forall|m: int, i: int|
            0 <= m < moves.len() && (#[trigger] moves[m]) is Listed && moves[m]->Listed_0 is Some
                && 0 <= i < moves[m]->Listed_0->0.len() && ((
            #[trigger] moves[m]->Listed_0->0[i]).kind == Some(Kind::File) || (
            moves[m]->Listed_0->0[i].kind == Some(Kind::Link) && moves[m]->Listed_0->0[i].target
                == Some(Kind::File))) && moves[m]->Listed_0->0[i].stamp is Some
                && moves[m]->Listed_0->0[i].name is Some && glob::fits(
                patterns,
                moves[m]->Listed_0->0[i].name->0@,
            ) ==> walked(w, patterns, moves).files.contains(
                Listed {
                    path: moves[m]->Listed_0->0[i].path,
                    stamp: moves[m]->Listed_0->0[i].stamp->0,
                },
            ),
        forall|k: int|
            w.files.len() <= k < walked(w, patterns, moves).files.len() ==> exists|m: int, i: int|
                0 <= m < moves.len() && (#[trigger] moves[m]) is Listed && moves[m]->Listed_0
                    is Some && 0 <= i < moves[m]->Listed_0->0.len() && ((
                #[trigger] moves[m]->Listed_0->0[i]).kind == Some(Kind::File) || (
                moves[m]->Listed_0->0[i].kind == Some(Kind::Link) && moves[m]->Listed_0->0[i].target
                    == Some(Kind::File))) && moves[m]->Listed_0->0[i].name is Some && glob::fits(
                    patterns,
                    moves[m]->Listed_0->0[i].name->0@,
                ) && (#[trigger] walked(w, patterns, moves).files[k]).path
                    == moves[m]->Listed_0->0[i].path && moves[m]->Listed_0->0[i].stamp == Some(
                    walked(w, patterns, moves).files[k].stamp,
                ),
    decreases moves.len(),
{
    if moves.len() > 0 {
        let init = moves.drop_last();
        let last = moves.len() - 1;
        let b = walked(w, patterns, init);
        let a = walked(w, patterns, moves);
        a_survey_holds_all_matching_files(w, patterns, init);
        lemma_advance(b);
        if moves[last] is Listed && moves[last]->Listed_0 is Some {
            a_listing_adds_its_matching_files(b, patterns, moves[last]->Listed_0->0);
        }
        assert(b.files.is_prefix_of(a.files));
        assert forall|m: int, i: int|
            0 <= m < moves.len() && (#[trigger] moves[m]) is Listed && moves[m]->Listed_0 is Some
                && 0 <= i < moves[m]->Listed_0->0.len() && ((
            #[trigger] moves[m]->Listed_0->0[i]).kind == Some(Kind::File) || (
            moves[m]->Listed_0->0[i].kind == Some(Kind::Link) && moves[m]->Listed_0->0[i].target
                == Some(Kind::File))) && moves[m]->Listed_0->0[i].stamp is Some
                && moves[m]->Listed_0->0[i].name is Some && glob::fits(
                patterns,
                moves[m]->Listed_0->0[i].name->0@,
            ) implies a.files.contains(
            Listed {
                path: moves[m]->Listed_0->0[i].path,
                stamp: moves[m]->Listed_0->0[i].stamp->0,
            },
        ) by {
            let f = Listed {
                path: moves[m]->Listed_0->0[i].path,
                stamp: moves[m]->Listed_0->0[i].stamp->0,
            };
            if m < last {
                assert(init[m] == moves[m]);
                assert(init[m]->Listed_0->0[i] == moves[m]->Listed_0->0[i]);
                assert(b.files.contains(f));
                let k = choose|k: int| 0 <= k < b.files.len() && b.files[k] == f;
                assert(a.files[k] == f);
            } else {
                let es = moves[last]->Listed_0->0;
                assert(es[i] == moves[m]->Listed_0->0[i]);
                let k = choose|k: int|
                    b.files.len() <= k < a.files.len() && (#[trigger] a.files[k]) == f;
                assert(a.files[k] == f);
            }
        }
        assert forall|k: int| w.files.len() <= k < a.files.len() implies exists|m: int, i: int|
            0 <= m < moves.len() && (#[trigger] moves[m]) is Listed && moves[m]->Listed_0 is Some
                && 0 <= i < moves[m]->Listed_0->0.len() && ((
            #[trigger] moves[m]->Listed_0->0[i]).kind == Some(Kind::File) || (
            moves[m]->Listed_0->0[i].kind == Some(Kind::Link) && moves[m]->Listed_0->0[i].target
                == Some(Kind::File))) && moves[m]->Listed_0->0[i].name is Some && glob::fits(
                patterns,
                moves[m]->Listed_0->0[i].name->0@,
            ) && (#[trigger] a.files[k]).path == moves[m]->Listed_0->0[i].path
                && moves[m]->Listed_0->0[i].stamp == Some(a.files[k].stamp) by {
            if k < b.files.len() {
                assert(a.files[k] == b.files[k]);
                let (m, i) = choose|m: int, i: int|
                    0 <= m < init.len() && (#[trigger] init[m]) is Listed && init[m]->Listed_0
                        is Some && 0 <= i < init[m]->Listed_0->0.len() && ((
                    #[trigger] init[m]->Listed_0->0[i]).kind == Some(Kind::File) || (
                    init[m]->Listed_0->0[i].kind == Some(Kind::Link)
                        && init[m]->Listed_0->0[i].target == Some(Kind::File)))
                        && init[m]->Listed_0->0[i].name is Some && glob::fits(
                        patterns,
                        init[m]->Listed_0->0[i].name->0@,
                    ) && b.files[k].path == init[m]->Listed_0->0[i].path
                        && init[m]->Listed_0->0[i].stamp == Some(b.files[k].stamp);
                assert(moves[m] == init[m]);
                assert(moves[m]->Listed_0->0[i] == init[m]->Listed_0->0[i]);
            } else {
                let es = moves[last]->Listed_0->0;
                assert(moves[last] is Listed && moves[last]->Listed_0 is Some);
                assert(a.files[k] == after_listing(b, patterns, Some(es)).files[k]);
                let i = choose|i: int|
                    0 <= i < es.len() && ((#[trigger] es[i]).kind == Some(Kind::File) || (es[i].kind
                        == Some(Kind::Link) && es[i].target == Some(Kind::File))) && es[i].stamp
                        is Some && es[i].name is Some && glob::fits(patterns, es[i].name->0@)
                        && a.files[k] == (Listed { path: es[i].path, stamp: es[i].stamp->0 });
                assert(moves[last]->Listed_0->0[i] == es[i]);
            }
        }
    }
}

/// A step changes nothing but what waits, what was visited and what is current.
proof fn lemma_advance(w: Walking)
    ensures
        advanced(w).files == w.files,
        advanced(w).dirs == w.dirs,
        advanced(w).depth == w.depth,
    decreases w.stack.len(),
{
    if w.stack.len() > 0 {
        lemma_advance(Walking { stack: w.stack.drop_last(), ..w });
    }
}

/// The walk descends: above the depth limit, every subdirectory of a listing that has a name, and
/// every link to a directory, waits to be read one level down, and nothing else does beside what
/// waited before. At the depth limit nothing more waits. A directory that was read counts.
pub proof fn subdirectories_wait_down_to_the_depth(
    w: Walking,
    patterns: Seq<Seq<char>>,
    es: Seq<Entry>,
)
    requires
        0 <= w.current.level < i32::MAX,
    ensures
        ({
            let a = after_listing(w, patterns, Some(es));
            let n = w.stack.len();
            &&& w.current.level >= w.depth ==> a.stack == w.stack
            &&& w.stack.is_prefix_of(a.stack)
            &&& w.current.level < w.depth ==> forall|i: int|
                0 <= i < es.len() && (#[trigger] es[i]).kind == Some(Kind::Dir) && es[i].name
                    is Some ==> exists|k: int|
                    n <= k < a.stack.len() && (#[trigger] a.stack[k]) == (Pending {
                        token: es[i].token,
                        canon: Some(es[i].canon),
                        level: (w.current.level + 1) as i32,
                    })
            &&& w.current.level < w.depth ==> forall|i: int|
                0 <= i < es.len() && (#[trigger] es[i]).kind == Some(Kind::Link) && es[i].target
                    == Some(Kind::Dir) ==> exists|k: int|
                    n <= k < a.stack.len() && (#[trigger] a.stack[k]) == (Pending {
                        token: es[i].token,
                        canon: None,
                        level: (w.current.level + 1) as i32,
                    })
            &&& forall|k: int|
                n <= k < a.stack.len() ==> exists|i: int|
                    0 <= i < es.len() && (#[trigger] a.stack[k]).token == (
                    #[trigger] es[i]).token && a.stack[k].level == w.current.level + 1 && ((
                    es[i].kind == Some(Kind::Dir) && a.stack[k].canon == Some(es[i].canon)) || (
                    es[i].kind == Some(Kind::Link) && es[i].target == Some(Kind::Dir)
                        && a.stack[k].canon is None))
            &&& a.dirs == (if w.dirs == usize::MAX {
                w.dirs as int
            } else {
                w.dirs + 1
            })
            &&& a.visited == w.visited
            &&& a.depth == w.depth
            &&& a.current == w.current
            &&& after_listing(w, patterns, None) == w
        }),
{
    let a = after_listing(w, patterns, Some(es));
    let n = w.stack.len();
    let level = w.current.level;
    let plain = subdirs(es, level, false);
    let links = subdirs(es, level, true);
    let down = plain + links;
    lemma_subdirs(es, level, false);
    lemma_subdirs(es, level, true);
    if level < w.depth {
        assert forall|i: int|
            0 <= i < es.len() && (#[trigger] es[i]).kind == Some(Kind::Dir) && es[i].name
                is Some implies exists|k: int|
            n <= k < a.stack.len() && (#[trigger] a.stack[k]) == (Pending {
                token: es[i].token,
                canon: Some(es[i].canon),
                level: (level + 1) as i32,
            }) by {
            let d = choose|d: int|
                0 <= d < plain.len() && (#[trigger] plain[d]) == (Pending {
                    token: es[i].token,
                    canon: Some(es[i].canon),
                    level: (level + 1) as i32,
                });
            assert(down[d] == plain[d]);
            assert(a.stack[n + down.len() - 1 - d] == down[d]);
        }
        assert forall|i: int|
            0 <= i < es.len() && (#[trigger] es[i]).kind == Some(Kind::Link) && es[i].target
                == Some(Kind::Dir) implies exists|k: int|
            n <= k < a.stack.len() && (#[trigger] a.stack[k]) == (Pending {
                token: es[i].token,
                canon: None,
                level: (level + 1) as i32,
            }) by {
            let d = choose|d: int|
                0 <= d < links.len() && (#[trigger] links[d]) == (Pending {
                    token: es[i].token,
                    canon: None,
                    level: (level + 1) as i32,
                });
            assert(down[plain.len() + d] == links[d]);
            assert(a.stack[n + down.len() - 1 - (plain.len() + d)] == down[plain.len() + d]);
        }
        assert forall|k: int| n <= k < a.stack.len() implies exists|i: int|
            0 <= i < es.len() && (#[trigger] a.stack[k]).token == (#[trigger] es[i]).token
                && a.stack[k].level == level + 1 && ((es[i].kind == Some(Kind::Dir)
                && a.stack[k].canon == Some(es[i].canon)) || (es[i].kind == Some(Kind::Link)
                && es[i].target == Some(Kind::Dir) && a.stack[k].canon is None)) by {
            let d = down.len() - 1 - (k - n);
            assert(a.stack[k] == down[d]);
            if d < plain.len() {
                assert(down[d] == plain[d]);
            } else {
                assert(down[d] == links[d - plain.len()]);
            }
        }
    }
}

/// The directories of one class among entries.
proof fn lemma_subdirs(es: Seq<Entry>, level: i32, links: bool)
    requires
        0 <= level < i32::MAX,
    ensures
        forall|i: int|
            0 <= i < es.len() && !links && class_of(#[trigger] es[i]) is RealDir && es[i].name
                is Some ==> exists|d: int|
                0 <= d < subdirs(es, level, links).len() && (#[trigger] subdirs(
                    es,
                    level,
                    links,
                )[d]) == (Pending {
                    token: es[i].token,
                    canon: Some(es[i].canon),
                    level: (level + 1) as i32,
                }),
        forall|i: int|
            0 <= i < es.len() && links && class_of(#[trigger] es[i]) is LinkDir ==> exists|d: int|
                0 <= d < subdirs(es, level, links).len() && (#[trigger] subdirs(
                    es,
                    level,
                    links,
                )[d]) == (Pending {
                    token: es[i].token,
                    canon: None,
                    level: (level + 1) as i32,
                }),
        forall|d: int|
            0 <= d < subdirs(es, level, links).len() ==> exists|i: int|
                0 <= i < es.len() && (#[trigger] subdirs(es, level, links)[d]).token == (
                #[trigger] es[i]).token && subdirs(es, level, links)[d].level == level + 1 && (if links {
                    class_of(es[i]) is LinkDir && subdirs(es, level, links)[d].canon is None
                } else {
                    class_of(es[i]) is RealDir && subdirs(es, level, links)[d].canon == Some(
                        es[i].canon,
                    )
                }),
    decreases es.len(),
{
    if es.len() > 0 {
        let init = es.drop_last();
        let last = es.len() - 1;
        let before = subdirs(init, level, links);
        let all = subdirs(es, level, links);
        lemma_subdirs(init, level, links);
        assert forall|i: int|
            0 <= i < es.len() && !links && class_of(#[trigger] es[i]) is RealDir && es[i].name
                is Some implies exists|d: int|
            0 <= d < all.len() && (#[trigger] all[d]) == (Pending {
                token: es[i].token,
                canon: Some(es[i].canon),
                level: (level + 1) as i32,
            }) by {
            if i < last {
                assert(init[i] == es[i]);
                let d = choose|d: int|
                    0 <= d < before.len() && (#[trigger] before[d]) == (Pending {
                        token: init[i].token,
                        canon: Some(init[i].canon),
                        level: (level + 1) as i32,
                    });
                assert(all[d] == before[d]);
            } else {
                assert(all[before.len() as int].token == es[i].token);
            }
        }
        assert forall|i: int|
            0 <= i < es.len() && links && class_of(#[trigger] es[i]) is LinkDir implies exists|
            d: int,
        |
            0 <= d < all.len() && (#[trigger] all[d]) == (Pending {
                token: es[i].token,
                canon: None,
                level: (level + 1) as i32,
            }) by {
            if i < last {
                assert(init[i] == es[i]);
                let d = choose|d: int|
                    0 <= d < before.len() && (#[trigger] before[d]) == (Pending {
                        token: init[i].token,
                        canon: None,
                        level: (level + 1) as i32,
                    });
                assert(all[d] == before[d]);
            } else {
                assert(all[before.len() as int].token == es[i].token);
            }
        }
        assert forall|d: int| 0 <= d < all.len() implies exists|i: int|
            0 <= i < es.len() && (#[trigger] all[d]).token == (#[trigger] es[i]).token
                && all[d].level == level + 1 && (if links {
                class_of(es[i]) is LinkDir && all[d].canon is None
            } else {
                class_of(es[i]) is RealDir && all[d].canon == Some(es[i].canon)
            }) by {
            if d < before.len() {
                assert(all[d] == before[d]);
                let i = choose|i: int|
                    0 <= i < init.len() && before[d].token == (#[trigger] init[i]).token
                        && before[d].level == level + 1 && (if links {
                        class_of(init[i]) is LinkDir && before[d].canon is None
                    } else {
                        class_of(init[i]) is RealDir && before[d].canon == Some(init[i].canon)
                    });
                assert(es[i] == init[i]);
            } else {
                assert(all[d].token == es[last].token);
            }
        }
    }
}

/// What is done next is to read, or to resolve, the last directory that waits at a place not
/// visited before; those above it are passed over. Where there is none, the walk is done.
pub proof fn the_last_unvisited_place_comes_next(w: Walking) -> (n: int)
    ensures
        0 <= n <= w.stack.len(),
        forall|k: int|
            n <= k < w.stack.len() ==> (#[trigger] w.stack[k]).canon is Some && table::lookup(
                w.visited,
                w.stack[k].canon->0@,
            ) is Some,
        n == 0 ==> next_step(w) == Step::Done && advanced(w) == (Walking { stack: seq![], ..w }),
        n > 0 && w.stack[n - 1].canon is None ==> next_step(w) == Step::Resolve(
            w.stack[n - 1].token,
        ) && advanced(w) == (Walking {
            stack: w.stack.take(n - 1),
            current: w.stack[n - 1],
            ..w
        }),
        n > 0 && w.stack[n - 1].canon is Some ==> table::lookup(
            w.visited,
            w.stack[n - 1].canon->0@,
        ) is None && next_step(w) == Step::Read(w.stack[n - 1].token) && advanced(w) == (Walking {
            stack: w.stack.take(n - 1),
            visited: table::put(w.visited, w.stack[n - 1].canon->0@, true),
            current: w.stack[n - 1],
            ..w
        }),
    decreases w.stack.len(),
{
    if w.stack.len() == 0 {
        assert(advanced(w) =~= (Walking { stack: seq![], ..w }));
        0
    } else {
        let last = w.stack.len() - 1;
        let rest = Walking { stack: w.stack.drop_last(), ..w };
        assert(w.stack.drop_last() =~= w.stack.take(last));
        if w.stack[last].canon is Some && table::lookup(w.visited, w.stack[last].canon->0@)
            is Some {
            let n = the_last_unvisited_place_comes_next(rest);
            assert forall|k: int| n <= k < w.stack.len() implies (#[trigger] w.stack[k]).canon
                is Some && table::lookup(w.visited, w.stack[k].canon->0@) is Some by {
                if k < last {
                    assert(rest.stack[k] == w.stack[k]);
                }
            }
            if n > 0 {
                assert(rest.stack[n - 1] == w.stack[n - 1]);
                assert(rest.stack.take(n - 1) =~= w.stack.take(n - 1));
            }
            n
        } else {
            w.stack.len() as int
        }
    }
}

/// A link is followed exactly where it leads to a place that was not visited before, and then that
/// place counts as visited; nothing else changes.
pub proof fn a_link_leads_to_a_new_place_or_nowhere(w: Walking, canon: Seq<char>)
    ensures
        !link_is_new(w, None),
        after_resolving(w, None) == w,
        link_is_new(w, Some(canon)) == (table::lookup(w.visited, canon) is None),
        after_resolving(w, Some(canon)) == (if table::lookup(w.visited, canon) is None {
            Walking { visited: table::put(w.visited, canon, true), ..w }
        } else {
            w
        }),
{
}

} // verus!
