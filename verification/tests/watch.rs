use std::collections::BTreeMap;

use dirwatch::glob::GlobMatcher;
use dirwatch::os::Os;
use dirwatch::walk::{Entry, Kind, Step, Walk};
use dirwatch::watch::{
    Stamp, Survey, SweepStats, WatchEvent, WatchService, MISSING_PRUNE_SWEEPS, PRUNED_STAMPS_MAX,
};

const ROOT: &str = "/w";

/// What stands at a place of the tree.
#[derive(Clone)]
enum Node {
    File { length: u64, write: i128 },
    Dir,
    Link(String),
}

/// A directory tree in memory, with the watch that looks at it.
struct W {
    nodes: BTreeMap<String, Node>,
    readable: bool,
    disc: Vec<String>,
    act: Vec<String>,
    miss: Vec<String>,
    reap: Vec<String>,
    errs: Vec<String>,
    recovered: u32,
    clock: i128,
}

fn file_name(path: &str) -> String {
    path.rsplit('/').next().unwrap().to_string()
}

fn has(v: &[String], name: &str) -> bool {
    v.iter().any(|p| file_name(p) == name)
}

impl W {
    fn new() -> W {
        let mut nodes = BTreeMap::new();
        nodes.insert(ROOT.to_string(), Node::Dir);
        W {
            nodes,
            readable: true,
            disc: vec![],
            act: vec![],
            miss: vec![],
            reap: vec![],
            errs: vec![],
            recovered: 0,
            clock: 1_752_496_800_000_000_000,
        }
    }

    fn svc(&self, depth: i32) -> WatchService {
        self.svc_on(Os::Linux, depth)
    }

    fn svc_on(&self, os: Os, depth: i32) -> WatchService {
        WatchService::new(os, ROOT, GlobMatcher::new(None), 100, depth)
    }

    fn dir(&mut self, path: &str) {
        self.nodes.insert(path.to_string(), Node::Dir);
    }

    fn link(&mut self, to: &str, path: &str) {
        self.nodes
            .insert(path.to_string(), Node::Link(to.to_string()));
    }

    fn write_at(&mut self, path: &str, content: &str) {
        self.clock += 1_000_000_000;
        let node = Node::File {
            length: content.len() as u64,
            write: self.clock,
        };
        self.nodes.insert(path.to_string(), node);
    }

    fn write(&mut self, name: &str, content: &str) {
        self.write_at(&format!("{ROOT}/{name}"), content);
    }

    fn remove(&mut self, name: &str) {
        self.nodes.remove(&format!("{ROOT}/{name}"));
    }

    /// Where a path really lies, all links followed.
    fn canon(&self, path: &str) -> Option<String> {
        let mut real = String::new();
        let mut parts: Vec<String> = path.split('/').skip(1).map(String::from).collect();
        let mut hops = 0;
        while !parts.is_empty() {
            let part = parts.remove(0);
            if part == "." {
                continue;
            }
            if part == ".." {
                let cut = real.rfind('/')?;
                real.truncate(cut);
                continue;
            }
            let here = format!("{real}/{part}");
            match self.nodes.get(&here)? {
                Node::Link(to) => {
                    hops += 1;
                    if hops > 40 {
                        return None;
                    }
                    let mut next: Vec<String> = Vec::new();
                    if let Some(rest) = to.strip_prefix('/') {
                        real.clear();
                        next.extend(rest.split('/').map(String::from));
                    } else {
                        next.extend(to.split('/').map(String::from));
                    }
                    next.append(&mut parts);
                    parts = next;
                }
                _ => real = here,
            }
        }
        Some(real)
    }

    /// The names in a directory, as a listing shows them.
    fn list(&self, path: &str, tokens: &mut Vec<String>) -> Option<Vec<Entry>> {
        let real = self.canon(path)?;
        if !matches!(self.nodes.get(&real)?, Node::Dir) {
            return None;
        }
        let mut out = vec![];
        for (child, node) in &self.nodes {
            let name = match child.strip_prefix(&format!("{real}/")) {
                Some(n) if !n.contains('/') => n.to_string(),
                _ => continue,
            };
            let shown = format!("{path}/{name}");
            tokens.push(shown.clone());
            let kind = match node {
                Node::File { .. } => Kind::File,
                Node::Dir => Kind::Dir,
                Node::Link(_) => Kind::Link,
            };
            let behind = self.canon(child).and_then(|c| self.nodes.get(&c).cloned());
            let target = match (&kind, &behind) {
                (Kind::Link, Some(Node::File { .. })) => Some(Kind::File),
                (Kind::Link, Some(Node::Dir)) => Some(Kind::Dir),
                _ => None,
            };
            let stamp = match behind {
                Some(Node::File { length, write }) => Some(Stamp {
                    length,
                    write: Some(write),
                }),
                _ => None,
            };
            out.push(Entry {
                token: tokens.len() as u64 - 1,
                path: shown,
                name: Some(name),
                kind: Some(kind),
                target,
                stamp,
                canon: child.clone(),
            });
        }
        Some(out)
    }

    /// Walks the tree below the watched directory.
    fn survey(&self, s: &WatchService) -> Result<Survey, String> {
        if !self.readable {
            return Err(s.unreadable("No such file or directory"));
        }
        let mut tokens = vec![ROOT.to_string()];
        let entries = self.list(ROOT, &mut tokens);
        if entries.is_none() {
            return Err(s.unreadable("No such file or directory"));
        }
        let mut walk = Walk::new(s, 0, ROOT.to_string());
        walk.listed(s, entries);
        loop {
            match walk.next() {
                Step::Read(t) => {
                    let at = tokens[t as usize].clone();
                    let entries = self.list(&at, &mut tokens);
                    walk.listed(s, entries);
                }
                Step::Resolve(t) => {
                    let at = tokens[t as usize].clone();
                    if walk.resolved(self.canon(&at)) {
                        let entries = self.list(&at, &mut tokens);
                        walk.listed(s, entries);
                    }
                }
                Step::Done => break,
            }
        }
        Ok(walk.into_survey())
    }

    fn take(&mut self, events: Vec<WatchEvent>) {
        for ev in events {
            match ev {
                WatchEvent::Discovered(p) => self.disc.push(p),
                WatchEvent::Activity(p) => self.act.push(p),
                WatchEvent::Missing(p) => self.miss.push(p),
                WatchEvent::Reappeared(p) => self.reap.push(p),
                WatchEvent::Error(m) => self.errs.push(m),
                WatchEvent::Recovered => self.recovered += 1,
            }
        }
    }

    fn start(&mut self, s: &mut WatchService) {
        let found = self.survey(s);
        let events = s.start(found, 0);
        self.take(events);
    }

    fn sweep(&mut self, s: &mut WatchService) {
        let found = self.survey(s);
        let events = s.sweep(found, 0);
        self.take(events);
    }

    fn discovered(&mut self, depth: i32) -> Vec<String> {
        let mut s = self.svc(depth);
        self.start(&mut s);
        let mut v = self.disc.clone();
        v.sort();
        v
    }
}

#[test]
fn start_on_empty_dir_raises_nothing() {
    let mut h = W::new();
    let mut s = h.svc(0);
    h.start(&mut s);
    assert!(h.disc.is_empty());
    assert!(h.act.is_empty());
}

#[test]
fn existing_files_at_start_are_dormant_discovered_not_active() {
    let mut h = W::new();
    h.write("old.log", "x\n");
    let mut s = h.svc(0);
    h.start(&mut s);
    assert!(has(&h.disc, "old.log"));
    assert!(!has(&h.act, "old.log"));
}

#[test]
fn new_file_after_start_is_discovered_and_active() {
    let mut h = W::new();
    let mut s = h.svc(0);
    h.start(&mut s);
    h.write("a.log", "x\n");
    h.sweep(&mut s);
    assert!(has(&h.disc, "a.log"));
    assert!(has(&h.act, "a.log"));
}

#[test]
fn append_raises_activity() {
    let mut h = W::new();
    let mut s = h.svc(0);
    h.start(&mut s);
    h.write("a.log", "x\n");
    h.sweep(&mut s);
    h.act.clear();
    h.write("a.log", "x\nmore\n");
    h.sweep(&mut s);
    assert!(has(&h.act, "a.log"));
}

#[test]
fn delete_raises_missing_then_reappear() {
    let mut h = W::new();
    let mut s = h.svc(0);
    h.start(&mut s);
    h.write("a.log", "x\n");
    h.sweep(&mut s);
    h.remove("a.log");
    h.sweep(&mut s);
    assert!(has(&h.miss, "a.log"));

    h.write("a.log", "back\n");
    h.sweep(&mut s);
    assert!(has(&h.reap, "a.log"));
    assert!(has(&h.act, "a.log"));
}

#[test]
fn missing_event_carries_original_cased_path_not_lowercased() {
    for os in [Os::Linux, Os::MacOs, Os::Windows] {
        let mut h = W::new();
        let mut s = h.svc_on(os, 0);
        h.start(&mut s);
        h.write("MixedCase.LOG", "x\n");
        h.sweep(&mut s);
        h.remove("MixedCase.LOG");
        h.sweep(&mut s);
        assert!(has(&h.miss, "MixedCase.LOG"));
        assert!(!has(&h.miss, "mixedcase.log"));
    }
}

#[test]
fn non_matching_files_ignored() {
    let mut h = W::new();
    let mut s = h.svc(0);
    h.start(&mut s);
    h.write("readme.md", "x\n");
    h.sweep(&mut s);
    assert!(h.disc.is_empty());
    assert!(h.act.is_empty());
}

#[test]
fn subdirectory_files_ignored_at_depth_zero() {
    let mut h = W::new();
    h.dir("/w/sub");
    h.write("sub/deep.log", "x\n");
    let mut s = h.svc(0);
    h.start(&mut s);
    assert!(!has(&h.disc, "deep.log"));
}

#[test]
fn subdirectory_files_discovered_at_depth_one() {
    let mut h = W::new();
    h.dir("/w/sub");
    h.write("sub/deep.log", "x\n");
    let mut s = h.svc(1);
    h.start(&mut s);
    assert!(has(&h.disc, "deep.log"));
}

#[test]
fn a_symlinked_matching_file_is_discovered_with_the_targets_length() {
    let mut h = W::new();
    h.dir("/w/real");
    h.write("real/target.log", "hello\n");
    h.link("/w/real/target.log", "/w/current.log");
    let mut s = h.svc(0);
    h.start(&mut s);
    assert!(has(&h.disc, "current.log"));
    h.act.clear();
    h.write("real/target.log", "hello\nmore\n");
    h.sweep(&mut s);
    assert!(has(&h.act, "current.log"));
}

#[test]
fn files_under_a_symlinked_directory_are_discovered() {
    let mut h = W::new();
    h.dir("/elsewhere");
    h.write_at("/elsewhere/deep.log", "x\n");
    h.link("/elsewhere", "/w/linkdir");
    let mut s = h.svc(1);
    h.start(&mut s);
    assert!(has(&h.disc, "deep.log"));
    assert_eq!(h.disc, ["/w/linkdir/deep.log"]);
}

#[test]
fn a_symlink_cycle_costs_one_visit_per_real_directory() {
    let mut h = W::new();
    h.write("a.log", "x\n");
    h.link(".", "/w/l1");
    h.link(".", "/w/l2");
    h.dir("/w/sub");
    h.write("sub/s.log", "x\n");
    h.link("..", "/w/sub/up");
    let paths = h.discovered(10);
    assert_eq!(
        paths,
        ["/w/a.log", "/w/sub/s.log"],
        "exactly one path per real file: {paths:?}"
    );
}

#[test]
fn a_link_that_aliases_a_sibling_directory_shows_its_files_once_under_the_real_name() {
    let mut h = W::new();
    h.dir("/w/2026-09-16");
    h.write("2026-09-16/app.log", "x\n");
    h.link("2026-09-16", "/w/current");
    h.link("2026-09-16", "/w/1st");
    let paths = h.discovered(1);
    assert_eq!(
        paths,
        ["/w/2026-09-16/app.log"],
        "one file, one path, the real name: {paths:?}"
    );
}

#[test]
fn a_symlinked_file_next_to_its_target_is_still_two_tiles() {
    let mut h = W::new();
    h.write("app.log", "x\n");
    h.link("app.log", "/w/current.log");
    let paths = h.discovered(0);
    assert_eq!(paths.len(), 2, "{paths:?}");
}

#[test]
fn a_real_files_stamp_comes_from_the_listing_and_a_links_from_its_target() {
    let mut h = W::new();
    h.dir("/w/real");
    h.write("real/target.log", "0123456789\n");
    h.link("/w/real/target.log", "/w/current.log");
    h.write("plain.log", "abc\n");
    let s = h.svc(0);
    let found = h.survey(&s).unwrap();
    let mut got: Vec<(String, u64)> = found
        .files
        .iter()
        .map(|f| (file_name(&f.path), f.stamp.length))
        .collect();
    got.sort();
    assert_eq!(
        got,
        vec![
            ("current.log".to_string(), 11),
            ("plain.log".to_string(), 4)
        ]
    );
    assert_eq!(found.dirs, 1, "root only at depth 0");
}

#[test]
fn sweep_stats_count_files_and_directories_walked() {
    let mut h = W::new();
    h.dir("/w/a");
    h.dir("/w/a/b");
    h.write("one.log", "x\n");
    h.write("a/two.log", "x\n");
    h.write("a/b/three.log", "x\n");
    h.write("a/skip.bin", "x");
    let mut s = h.svc(1);
    h.start(&mut s);
    let st = s.last_sweep();
    assert_eq!(
        (st.files, st.dirs),
        (2, 2),
        "depth 1: root + a walked (a/b is below the depth limit): {st:?}"
    );
}

#[test]
fn a_sweep_keeps_how_long_it_took() {
    let h = W::new();
    let mut s = h.svc(0);
    s.start(h.survey(&s), 7);
    assert_eq!(
        s.last_sweep(),
        SweepStats {
            files: 0,
            dirs: 1,
            millis: 7
        }
    );
}

#[test]
fn a_dangling_symlink_is_skipped_not_reported() {
    let mut h = W::new();
    h.link("/w/does_not_exist.log", "/w/broken.log");
    let mut s = h.svc(0);
    h.start(&mut s);
    assert!(!has(&h.disc, "broken.log"));
    assert!(h.errs.is_empty());
}

#[test]
fn below_the_depth_limit_is_not_discovered() {
    let mut h = W::new();
    h.dir("/w/a");
    h.dir("/w/a/b");
    h.write("a/b/deep.log", "x\n");
    let mut s = h.svc(1);
    h.start(&mut s);
    assert!(!has(&h.disc, "deep.log"));
}

#[test]
fn case_variant_names_are_distinct_files_on_case_sensitive_fs() {
    let mut h = W::new();
    h.write("a.log", "1\n");
    h.write("A.log", "22222\n");
    let mut s = h.svc_on(Os::Linux, 0);
    h.start(&mut s);
    assert!(has(&h.disc, "a.log"));
    assert!(has(&h.disc, "A.log"));
    for _ in 0..3 {
        h.sweep(&mut s);
    }
    assert!(
        h.act.is_empty(),
        "idle sweeps must not raise Activity: {:?}",
        h.act
    );
}

#[test]
fn case_variant_names_are_one_file_on_case_insensitive_fs() {
    for os in [Os::MacOs, Os::Windows] {
        let mut h = W::new();
        h.write("a.log", "1\n");
        let mut s = h.svc_on(os, 0);
        h.start(&mut s);
        let node = h.nodes.remove("/w/a.log").unwrap();
        h.nodes.insert("/w/A.log".to_string(), node);
        h.sweep(&mut s);
        assert!(h.miss.is_empty());
        assert_eq!(h.disc.len(), 1);
    }
}

#[test]
fn unreadable_root_raises_error_once_then_missing_for_known_files() {
    let mut h = W::new();
    h.write("a.log", "x\n");
    let mut s = h.svc(0);
    h.start(&mut s);
    h.readable = false;
    h.sweep(&mut s);
    h.sweep(&mut s);
    h.sweep(&mut s);
    assert_eq!(
        h.errs.len(),
        1,
        "error is edge-triggered (once per episode)"
    );
    assert!(h.errs[0].contains("cannot read"));
    assert_eq!(h.errs[0], "cannot read /w: No such file or directory");
    assert!(
        has(&h.miss, "a.log"),
        "known files go Missing when the root is unreadable"
    );
    h.readable = true;
    h.sweep(&mut s);
    h.readable = false;
    h.sweep(&mut s);
    assert_eq!(h.errs.len(), 2);
}

#[test]
fn long_missing_entries_are_pruned_and_rediscovered_on_return() {
    let mut h = W::new();
    let mut s = h.svc(0);
    h.start(&mut s);
    h.write("old.log", "x\n");
    h.sweep(&mut s);
    assert_eq!(s.tracked_count(), 1);
    h.remove("old.log");
    for _ in 0..(MISSING_PRUNE_SWEEPS + 2) {
        h.sweep(&mut s);
    }
    assert_eq!(s.tracked_count(), 0, "pruned after MISSING_PRUNE_SWEEPS");
    assert_eq!(h.miss.len(), 1, "Missing raised exactly once");
    h.disc.clear();
    h.write("old.log", "y\n");
    h.sweep(&mut s);
    assert!(
        has(&h.reap, "old.log"),
        "a pruned file that returns is Reappeared"
    );
    assert!(
        has(&h.act, "old.log"),
        "and Activity, because its stamp changed"
    );
    assert!(h.disc.is_empty(), "not a second Discovered");
    assert_eq!(s.pruned_count(), 0, "its pruned stamp was consumed");
}

#[test]
fn long_root_outage_past_the_prune_window_reappears_unchanged_files_without_activity() {
    let mut h = W::new();
    for i in 0..5 {
        h.write(&format!("f{i}.log"), "x\n");
    }
    let mut s = h.svc(0);
    h.start(&mut s);
    h.sweep(&mut s);
    assert!(h.act.is_empty(), "idle: no activity");
    h.readable = false;
    for _ in 0..(MISSING_PRUNE_SWEEPS + 2) {
        h.sweep(&mut s);
    }
    assert_eq!(
        s.tracked_count(),
        5,
        "nothing is pruned while the root is unreadable"
    );
    h.readable = true;
    h.sweep(&mut s);
    assert_eq!(h.reap.len(), 5, "all five Reappear");
    assert!(
        h.act.is_empty(),
        "unchanged files must NOT be Activity after a long outage: {:?}",
        h.act
    );
    assert_eq!(h.recovered, 1);
}

#[test]
fn long_subdirectory_outage_reappears_unchanged_files_without_activity() {
    let mut h = W::new();
    h.dir("/w/sub");
    for i in 0..3 {
        h.write(&format!("sub/s{i}.log"), "x\n");
    }
    let mut s = h.svc(1);
    h.start(&mut s);
    h.sweep(&mut s);
    assert!(h.act.is_empty());
    let all = h.nodes.clone();
    h.nodes.retain(|p, _| !p.starts_with("/w/sub"));
    for _ in 0..(MISSING_PRUNE_SWEEPS + 2) {
        h.sweep(&mut s);
    }
    assert_eq!(
        s.tracked_count(),
        0,
        "subdir files are pruned (no root error)"
    );
    assert_eq!(s.pruned_count(), 3, "but their stamps are remembered");
    h.nodes = all;
    h.sweep(&mut s);
    assert_eq!(h.reap.len(), 3, "all three Reappear");
    assert!(
        h.act.is_empty(),
        "unchanged subdir files must NOT be Activity: {:?}",
        h.act
    );
    assert_eq!(s.pruned_count(), 0, "consumed on return");
    h.write("sub/new.log", "n\n");
    h.sweep(&mut s);
    assert!(has(&h.disc, "new.log"));
    assert!(has(&h.act, "new.log"));
}

#[test]
fn pruned_stamp_map_is_bounded() {
    let mut h = W::new();
    let mut s = h.svc(0);
    h.start(&mut s);
    let mut n = 0usize;
    while n <= PRUNED_STAMPS_MAX + 5 {
        for j in 0..8 {
            h.write(&format!("r{n}_{j}.log"), "x\n");
        }
        h.sweep(&mut s);
        for j in 0..8 {
            h.remove(&format!("r{n}_{j}.log"));
        }
        for _ in 0..(MISSING_PRUNE_SWEEPS + 2) {
            h.sweep(&mut s);
        }
        n += 8;
        assert!(
            s.pruned_count() <= PRUNED_STAMPS_MAX,
            "bounded at every step"
        );
    }
    assert!(s.pruned_count() <= PRUNED_STAMPS_MAX);
}

#[test]
fn sweep_uses_the_listing_stamp_so_a_size_change_is_still_activity() {
    let mut h = W::new();
    let mut s = h.svc(0);
    h.start(&mut s);
    h.write("a.log", "x\n");
    h.sweep(&mut s);
    h.act.clear();
    h.write("a.log", "x\nlonger\n");
    h.sweep(&mut s);
    assert!(has(&h.act, "a.log"));
}

#[test]
fn root_blip_reappears_files_without_activity_and_reports_recovery_once() {
    let mut h = W::new();
    for i in 0..5 {
        h.write(&format!("f{i}.log"), "x\n");
    }
    let mut s = h.svc(0);
    h.start(&mut s);
    h.sweep(&mut s);
    assert!(h.act.is_empty(), "idle: no activity");
    h.readable = false;
    h.sweep(&mut s);
    assert_eq!(h.errs.len(), 1);
    assert_eq!(h.miss.len(), 5, "all five go Missing");
    h.readable = true;
    h.sweep(&mut s);
    assert_eq!(h.reap.len(), 5, "all five Reappear");
    assert!(
        h.act.is_empty(),
        "unchanged files must NOT be Activity: {:?}",
        h.act
    );
    assert_eq!(h.recovered, 1, "Recovered raised once");
    h.sweep(&mut s);
    assert_eq!(h.recovered, 1, "Recovered is edge-triggered");
    h.readable = false;
    h.sweep(&mut s);
    h.write("f0.log", "x\nmore\n");
    h.readable = true;
    h.sweep(&mut s);
    assert!(has(&h.act, "f0.log"));
    assert_eq!(h.act.len(), 1, "only the changed file");
}

#[test]
fn a_link_to_a_linked_directory_is_walked_once() {
    let mut h = W::new();
    h.dir("/far");
    h.write_at("/far/x.log", "x\n");
    h.link("/far", "/w/b");
    h.link("/w/b", "/w/a");
    assert_eq!(h.discovered(3), ["/w/a/x.log"]);
}

#[test]
fn a_watch_brings_its_numbers_into_range() {
    let s = WatchService::new(Os::Linux, "/w", GlobMatcher::new(None), 1, 99);
    assert_eq!(s.poll_interval_ms(), 100);
    assert_eq!(s.depth(), 10);
    assert_eq!(s.directory(), "/w");
    let s = WatchService::new(Os::Linux, "/w", GlobMatcher::new(None), 250, -3);
    assert_eq!(s.poll_interval_ms(), 250);
    assert_eq!(s.depth(), 0);
    assert!(s.wants("a.LOG"));
    assert!(!s.wants("a.bin"));
}

#[test]
fn a_second_look_at_the_same_files_reports_nothing() {
    let mut h = W::new();
    h.dir("/w/sub");
    h.write("a.log", "1\n");
    h.write("sub/b.log", "2\n");
    let mut s = h.svc(1);
    h.start(&mut s);
    h.write("a.log", "11\n");
    h.write("c.log", "3\n");
    h.remove("sub/b.log");
    let found = h.survey(&s);
    let events = s.sweep(found, 0);
    assert_eq!(
        events,
        [
            WatchEvent::Activity("/w/a.log".to_string()),
            WatchEvent::Discovered("/w/c.log".to_string()),
            WatchEvent::Activity("/w/c.log".to_string()),
            WatchEvent::Missing("/w/sub/b.log".to_string()),
        ]
    );
    let found = h.survey(&s);
    assert_eq!(s.sweep(found, 0), []);
}

/// A sweep of which nothing can be handed on.
fn refused(h: &W, s: &mut WatchService) -> Vec<WatchEvent> {
    let found = h.survey(s);
    let events = s.sweep(found, 0);
    s.take_back(&events);
    events
}

fn swept(h: &W, s: &mut WatchService) -> Vec<WatchEvent> {
    let found = h.survey(s);
    s.sweep(found, 0)
}

#[test]
fn a_finding_that_could_not_be_handed_on_comes_again() {
    let mut h = W::new();
    h.write("old.log", "1\n");
    h.write("gone.log", "1\n");
    let mut s = h.svc(0);
    h.start(&mut s);
    h.write("old.log", "22\n");
    h.write("new.log", "3\n");
    h.remove("gone.log");
    let first = refused(&h, &mut s);
    assert_eq!(
        first,
        [
            WatchEvent::Discovered("/w/new.log".to_string()),
            WatchEvent::Activity("/w/new.log".to_string()),
            WatchEvent::Activity("/w/old.log".to_string()),
            WatchEvent::Missing("/w/gone.log".to_string()),
        ]
    );
    for _ in 0..(MISSING_PRUNE_SWEEPS + 5) {
        assert_eq!(refused(&h, &mut s), first);
    }
    assert_eq!(swept(&h, &mut s), first);
    assert_eq!(swept(&h, &mut s), []);
}

#[test]
fn a_file_nobody_heard_of_is_discovered_when_it_is_listed_again() {
    for away in [1, MISSING_PRUNE_SWEEPS + 5] {
        let mut h = W::new();
        let mut s = h.svc(0);
        h.start(&mut s);
        h.write("a.log", "1\n");
        let first = swept(&h, &mut s);
        s.take_back(&first);
        h.remove("a.log");
        h.write("b.log", "2\n");
        assert_eq!(
            swept(&h, &mut s),
            [
                WatchEvent::Discovered("/w/b.log".to_string()),
                WatchEvent::Activity("/w/b.log".to_string()),
            ]
        );
        for _ in 1..away {
            assert_eq!(swept(&h, &mut s), []);
        }
        h.write("a.log", "1\n");
        assert_eq!(swept(&h, &mut s), first);
    }
}

#[test]
fn a_write_nobody_heard_of_is_reported_when_the_file_is_listed_again() {
    for away in [1, MISSING_PRUNE_SWEEPS + 5] {
        let mut h = W::new();
        h.write("a.log", "1\n");
        let mut s = h.svc(0);
        h.start(&mut s);
        h.write("a.log", "22\n");
        let first = swept(&h, &mut s);
        assert_eq!(first, [WatchEvent::Activity("/w/a.log".to_string())]);
        s.take_back(&first);
        let kept = h.nodes.clone();
        h.remove("a.log");
        for _ in 0..away {
            swept(&h, &mut s);
        }
        h.nodes = kept;
        assert_eq!(
            swept(&h, &mut s),
            [
                WatchEvent::Reappeared("/w/a.log".to_string()),
                WatchEvent::Activity("/w/a.log".to_string()),
            ]
        );
    }
}

#[test]
fn only_what_could_not_be_handed_on_comes_again() {
    let mut h = W::new();
    let mut s = h.svc(0);
    h.start(&mut s);
    h.write("a.log", "1\n");
    h.write("b.log", "2\n");
    let all = swept(&h, &mut s);
    assert_eq!(all.len(), 4);
    let rest = vec![all[0].clone(), all[3].clone()];
    s.take_back(&rest);
    assert_eq!(swept(&h, &mut s), rest);
    assert_eq!(swept(&h, &mut s), []);
}

#[test]
fn a_file_that_was_there_from_the_start_never_counts_as_written() {
    let mut h = W::new();
    h.write("a.log", "1\n");
    let mut s = h.svc(0);
    let found = h.survey(&s);
    let events = s.start(found, 0);
    s.take_back(&events);
    assert_eq!(
        swept(&h, &mut s),
        [WatchEvent::Discovered("/w/a.log".to_string())]
    );
    assert_eq!(swept(&h, &mut s), []);
}

#[test]
fn a_loss_nobody_heard_of_is_no_return_later() {
    let mut h = W::new();
    h.write("a.log", "1\n");
    let mut s = h.svc(0);
    h.start(&mut s);
    let node = h.nodes.remove("/w/a.log").unwrap();
    assert_eq!(
        refused(&h, &mut s),
        [WatchEvent::Missing("/w/a.log".to_string())]
    );
    h.nodes.insert("/w/a.log".to_string(), node);
    assert_eq!(swept(&h, &mut s), []);
}

#[test]
fn a_return_that_could_not_be_handed_on_comes_again() {
    let mut h = W::new();
    h.write("a.log", "1\n");
    let mut s = h.svc(0);
    h.start(&mut s);
    h.remove("a.log");
    swept(&h, &mut s);
    h.write("a.log", "changed\n");
    let back = [
        WatchEvent::Reappeared("/w/a.log".to_string()),
        WatchEvent::Activity("/w/a.log".to_string()),
    ];
    assert_eq!(refused(&h, &mut s), back);
    h.remove("a.log");
    assert_eq!(swept(&h, &mut s), [], "gone, as everybody has heard");
    h.write("a.log", "changed\n");
    assert_eq!(swept(&h, &mut s), back);
}

#[test]
fn a_file_nobody_heard_of_goes_without_a_word() {
    let mut h = W::new();
    let mut s = h.svc(0);
    h.start(&mut s);
    h.write("a.log", "1\n");
    refused(&h, &mut s);
    h.remove("a.log");
    for _ in 0..(MISSING_PRUNE_SWEEPS + 2) {
        assert_eq!(swept(&h, &mut s), []);
    }
    assert_eq!((s.tracked_count(), s.pruned_count()), (0, 0));
}

#[test]
fn word_of_an_outage_comes_again_too() {
    let mut h = W::new();
    let mut s = h.svc(0);
    h.start(&mut s);
    h.readable = false;
    let down = [WatchEvent::Error(
        "cannot read /w: No such file or directory".to_string(),
    )];
    assert_eq!(refused(&h, &mut s), down);
    assert_eq!(swept(&h, &mut s), down);
    h.readable = true;
    assert_eq!(refused(&h, &mut s), [WatchEvent::Recovered]);
    assert_eq!(swept(&h, &mut s), [WatchEvent::Recovered]);
    assert_eq!(swept(&h, &mut s), []);
}

#[test]
fn a_return_is_reported_once_however_long_the_file_was_gone() {
    for sweeps in [1, 2, MISSING_PRUNE_SWEEPS, MISSING_PRUNE_SWEEPS + 1, 100] {
        let mut h = W::new();
        h.write("a.log", "1\n");
        let mut s = h.svc(0);
        h.start(&mut s);
        let node = h.nodes.remove("/w/a.log").unwrap();
        for _ in 0..sweeps {
            swept(&h, &mut s);
        }
        h.nodes.insert("/w/a.log".to_string(), node);
        assert_eq!(
            swept(&h, &mut s),
            [WatchEvent::Reappeared("/w/a.log".to_string())]
        );
        assert_eq!((s.tracked_count(), s.pruned_count()), (1, 0));
    }
}
