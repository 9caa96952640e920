//! How the tracked files are shown: one box for each directory, the watched one first, with a tile
//! for each file.

use std::cmp::Ordering;

use vstd::prelude::*;

use crate::fskey;
use crate::glob::GlobMatcher;
use crate::os::Os;
use crate::paths;
use crate::paths::PathParts;
use crate::paths::PathView;
use crate::session;
use crate::session::ButtonVis;
use crate::session::Session;
use crate::session::SessionModel;
use crate::strings;
use crate::table;

verus! {

/// A name of more characters than this makes the tiles of its box wide.
pub const LONG_NAME_CHARS: usize = 24;

/// A box: a directory and the files in it.
#[derive(Debug, Clone)]
pub struct CachedBox {
    /// The directory, as the first of its files spells it.
    pub dir: String,
    /// The name and the path of each file.
    pub files: Vec<(String, String)>,
}

/// A box: a directory and the files in it.
#[verifier::ext_equal]
pub struct Tiles {
    /// The directory, as the first of its files spells it.
    pub dir: Seq<char>,
    /// The name and the path of each file.
    pub files: Seq<(Seq<char>, Seq<char>)>,
}

impl View for CachedBox {
    type V = Tiles;

    open spec fn view(&self) -> Tiles {
        Tiles { dir: self.dir@, files: tile_views(self.files@) }
    }
}

/// The names and paths of tiles.
pub open spec fn tile_views(v: Seq<(String, String)>) -> Seq<(Seq<char>, Seq<char>)> {
    v.map_values(|t: (String, String)| (t.0@, t.1@))
}

/// The boxes.
pub open spec fn box_views(v: Seq<CachedBox>) -> Seq<Tiles> {
    v.map_values(|b: CachedBox| b@)
}

// ---------------------------------------------------------------------------------------------
// Model
// ---------------------------------------------------------------------------------------------

/// Where `x` goes among ordered items: before the first that it precedes.
pub open spec fn slot<A>(items: Seq<A>, x: A, before: spec_fn(A, A) -> bool) -> int
    decreases items.len(),
{
    if items.len() == 0 {
        0
    } else {
        let k = slot(items.drop_last(), x, before);
        if k < items.len() - 1 || before(x, items.last()) {
            k
        } else {
            items.len() as int
        }
    }
}

/// The items in order; those that neither precedes stay as they came.
pub open spec fn in_order_by<A>(items: Seq<A>, before: spec_fn(A, A) -> bool) -> Seq<A>
    decreases items.len(),
{
    if items.len() == 0 {
        seq![]
    } else {
        let rest = in_order_by(items.drop_last(), before);
        rest.insert(slot(rest, items.last(), before), items.last())
    }
}

/// Paths are ordered without regard to case.
pub open spec fn path_before() -> spec_fn(Seq<char>, Seq<char>) -> bool {
    |a: Seq<char>, b: Seq<char>| table::precedes(strings::lowercase(a), strings::lowercase(b))
}

/// The place that a directory names, case aside.
pub open spec fn place(os: Os, dir: Seq<char>) -> PathView {
    paths::located(os, strings::lowercase(dir))
}

/// A directory is the watched one, whatever its case and its last separator.
pub open spec fn is_root(os: Os, root: Seq<char>, dir: Seq<char>) -> bool {
    place(os, dir) == place(os, root)
}

/// Components are compared one after another, so that a path precedes all that it is the beginning
/// of.
pub open spec fn parts_before(a: Seq<Seq<char>>, b: Seq<Seq<char>>) -> bool
    decreases a.len(),
{
    if b.len() == 0 {
        false
    } else if a.len() == 0 {
        true
    } else {
        table::precedes(a[0], b[0]) || (a[0] == b[0] && parts_before(
            a.drop_first(),
            b.drop_first(),
        ))
    }
}

/// Places are ordered by their prefixes, then those at a root before the others, and then by their
/// components.
pub open spec fn place_before(p: PathView, q: PathView) -> bool {
    ||| table::precedes(p.prefix, q.prefix)
    ||| p.prefix == q.prefix && p.rooted && !q.rooted
    ||| p.prefix == q.prefix && p.rooted == q.rooted && parts_before(p.parts, q.parts)
}

/// The watched directory precedes every other; the others are ordered component by component,
/// without regard to case.
pub open spec fn dir_before(os: Os, root: Seq<char>, a: Seq<char>, b: Seq<char>) -> bool {
    &&& !is_root(os, root, b)
    &&& is_root(os, root, a) || place_before(place(os, a), place(os, b))
}

/// Boxes are ordered as their directories are.
pub open spec fn box_before(os: Os, root: Seq<char>) -> spec_fn(Tiles, Tiles) -> bool {
    |a: Tiles, b: Tiles| dir_before(os, root, a.dir, b.dir)
}

/// The box of a directory.
pub open spec fn box_for(os: Os, boxes: Seq<Tiles>, key: Seq<char>) -> Option<int>
    decreases boxes.len(),
{
    if boxes.len() == 0 {
        None
    } else {
        match box_for(os, boxes.drop_last(), key) {
            Some(i) => Some(i),
            None => if fskey::key_of(os, boxes.last().dir) == key {
                Some(boxes.len() - 1)
            } else {
                None
            },
        }
    }
}

/// The tile of a file.
pub open spec fn tile_of(os: Os, path: Seq<char>) -> (Seq<char>, Seq<char>) {
    (paths::name_at_end(os, path), path)
}

/// The boxes with one more file.
pub open spec fn with_tile(os: Os, boxes: Seq<Tiles>, path: Seq<char>) -> Seq<Tiles> {
    let parent = paths::parent_dir(os, path);
    match box_for(os, boxes, fskey::key_of(os, parent)) {
        Some(i) => boxes.update(
            i,
            Tiles { files: boxes[i].files.push(tile_of(os, path)), ..boxes[i] },
        ),
        None => boxes.push(Tiles { dir: parent, files: seq![tile_of(os, path)] }),
    }
}

/// Paths sorted into the boxes of their directories.
pub open spec fn boxed(os: Os, paths: Seq<Seq<char>>) -> Seq<Tiles>
    decreases paths.len(),
{
    if paths.len() == 0 {
        seq![]
    } else {
        with_tile(os, boxed(os, paths.drop_last()), paths.last())
    }
}

/// The boxes in which files are shown.
pub open spec fn arranged(os: Os, paths: Seq<Seq<char>>, root: Seq<char>) -> Seq<Tiles> {
    in_order_by(boxed(os, in_order_by(paths, path_before())), box_before(os, root))
}

// ---------------------------------------------------------------------------------------------
// Order
// ---------------------------------------------------------------------------------------------

/// Components are strictly ordered.
proof fn lemma_parts_strict(a: Seq<Seq<char>>, b: Seq<Seq<char>>)
    ensures
        !(parts_before(a, b) && parts_before(b, a)),
        !parts_before(a, a),
        a != b ==> parts_before(a, b) || parts_before(b, a),
    decreases a.len(),
{
    if a.len() > 0 {
        table::lemma_precedes_strict(a[0], a[0]);
        lemma_parts_strict(a.drop_first(), a.drop_first());
    }
    if a.len() > 0 && b.len() > 0 {
        table::lemma_precedes_strict(a[0], b[0]);
        lemma_parts_strict(a.drop_first(), b.drop_first());
        if a[0] == b[0] && a.drop_first() == b.drop_first() {
            assert(a =~= seq![a[0]] + a.drop_first());
            assert(b =~= seq![b[0]] + b.drop_first());
        }
    } else if a.len() == 0 && b.len() == 0 {
        assert(a =~= b);
    }
}

/// The order of components is transitive.
proof fn lemma_parts_trans(a: Seq<Seq<char>>, b: Seq<Seq<char>>, c: Seq<Seq<char>>)
    requires
        parts_before(a, b),
        parts_before(b, c),
    ensures
        parts_before(a, c),
    decreases a.len(),
{
    if a.len() > 0 {
        if table::precedes(a[0], b[0]) && table::precedes(b[0], c[0]) {
            table::lemma_precedes_trans(a[0], b[0], c[0]);
        }
        if a[0] == b[0] && b[0] == c[0] && !table::precedes(a[0], c[0]) {
            lemma_parts_trans(a.drop_first(), b.drop_first(), c.drop_first());
        }
    }
}

/// Places are strictly ordered.
proof fn lemma_place_strict(p: PathView, q: PathView)
    ensures
        !(place_before(p, q) && place_before(q, p)),
        !place_before(p, p),
        p != q ==> place_before(p, q) || place_before(q, p),
{
    table::lemma_precedes_strict(p.prefix, q.prefix);
    lemma_parts_strict(p.parts, q.parts);
}

/// The order of places is transitive.
proof fn lemma_place_trans(p: PathView, q: PathView, r: PathView)
    requires
        place_before(p, q),
        place_before(q, r),
    ensures
        place_before(p, r),
{
    if table::precedes(p.prefix, q.prefix) && table::precedes(q.prefix, r.prefix) {
        table::lemma_precedes_trans(p.prefix, q.prefix, r.prefix);
    }
    if parts_before(p.parts, q.parts) && parts_before(q.parts, r.parts) {
        lemma_parts_trans(p.parts, q.parts, r.parts);
    }
}

/// Whether components precede others.
fn parts_less(a: &[String], b: &[String]) -> (r: bool)
    ensures
        r == parts_before(strings::views(a@), strings::views(b@)),
{
    let ghost x = strings::views(a@);
    let ghost y = strings::views(b@);
    let mut i: usize = 0;
    assert(x.skip(0) =~= x);
    assert(y.skip(0) =~= y);
    while i < a.len() && i < b.len()
        invariant
            i <= a@.len(),
            i <= b@.len(),
            x == strings::views(a@),
            y == strings::views(b@),
            parts_before(x, y) == parts_before(x.skip(i as int), y.skip(i as int)),
        decreases a@.len() - i,
    {
        proof {
            assert(x.skip(i as int)[0] == a@[i as int]@);
            assert(y.skip(i as int)[0] == b@[i as int]@);
            assert(x.skip(i as int).drop_first() =~= x.skip(i as int + 1));
            assert(y.skip(i as int).drop_first() =~= y.skip(i as int + 1));
            table::lemma_precedes_strict(a@[i as int]@, b@[i as int]@);
        }
        if strings::str_less(a[i].as_str(), b[i].as_str()) {
            return true;
        }
        if strings::str_less(b[i].as_str(), a[i].as_str()) {
            return false;
        }
        i += 1;
    }
    assert(x.skip(i as int).len() == a@.len() - i);
    assert(y.skip(i as int).len() == b@.len() - i);
    i < b.len()
}

/// Whether a place precedes another.
fn place_less(p: &PathParts, q: &PathParts) -> (r: bool)
    ensures
        r == place_before(p@, q@),
{
    proof {
        table::lemma_precedes_strict(p@.prefix, q@.prefix);
    }
    if strings::str_less(p.prefix.as_str(), q.prefix.as_str()) {
        return true;
    }
    if strings::str_less(q.prefix.as_str(), p.prefix.as_str()) {
        return false;
    }
    if p.rooted != q.rooted {
        return p.rooted;
    }
    parts_less(p.parts.as_slice(), q.parts.as_slice())
}

/// The order of two boxes, given the watched directory.
pub fn dir_box_order(os: Os, root: &str, a: &str, b: &str) -> (r: Ordering)
    ensures
        (r == Ordering::Less) == dir_before(os, root@, a@, b@),
        (r == Ordering::Greater) == dir_before(os, root@, b@, a@),
{
    let root_p = paths::locate(os, strings::to_lowercase(root).as_str());
    let a_p = paths::locate(os, strings::to_lowercase(a).as_str());
    let b_p = paths::locate(os, strings::to_lowercase(b).as_str());
    let a_is_root = paths::same_place(&a_p, &root_p);
    let b_is_root = paths::same_place(&b_p, &root_p);
    proof {
        lemma_place_strict(a_p@, b_p@);
    }
    if a_is_root && b_is_root {
        Ordering::Equal
    } else if a_is_root {
        Ordering::Less
    } else if b_is_root {
        Ordering::Greater
    } else if place_less(&a_p, &b_p) {
        Ordering::Less
    } else if place_less(&b_p, &a_p) {
        Ordering::Greater
    } else {
        Ordering::Equal
    }
}

/// `a` precedes, `b` does not: the rest of the order of paths.
proof fn lemma_path_order(a: Seq<char>, b: Seq<char>, c: Seq<char>)
    ensures
        path_before()(a, b) && !path_before()(c, b) ==> path_before()(a, c),
        !(path_before()(a, b) && path_before()(b, a)),
        !path_before()(b, a) && !path_before()(c, b) ==> !path_before()(c, a),
{
    let x = strings::lowercase(a);
    let y = strings::lowercase(b);
    let z = strings::lowercase(c);
    table::lemma_precedes_strict(x, y);
    table::lemma_precedes_strict(y, z);
    table::lemma_precedes_strict(x, z);
    if table::precedes(x, y) && table::precedes(y, z) {
        table::lemma_precedes_trans(x, y, z);
    }
    if table::precedes(z, x) && table::precedes(x, y) {
        table::lemma_precedes_trans(z, x, y);
    }
    if table::precedes(z, x) && x == y {
    }
    if table::precedes(y, x) && table::precedes(z, y) {
        table::lemma_precedes_trans(z, y, x);
    }
}

/// Items of which none precedes an earlier one.
pub open spec fn is_ordered<A>(items: Seq<A>, before: spec_fn(A, A) -> bool) -> bool {
    forall|i: int, j: int|
        0 <= i < j < items.len() ==> !before(#[trigger] items[j], #[trigger] items[i])
}

/// A strict order in which unordered items are alike.
pub open spec fn weak_order<A>(before: spec_fn(A, A) -> bool) -> bool {
    forall|a: A, b: A, c: A|
        (#[trigger] before(a, b) && !#[trigger] before(c, b) ==> before(a, c)) && !(before(a, b)
            && before(b, a))
}

proof fn lemma_slot<A>(items: Seq<A>, x: A, before: spec_fn(A, A) -> bool)
    ensures
        0 <= slot(items, x, before) <= items.len(),
        forall|i: int| 0 <= i < slot(items, x, before) ==> !before(x, #[trigger] items[i]),
        slot(items, x, before) < items.len() ==> before(x, items[slot(items, x, before)]),
    decreases items.len(),
{
    if items.len() > 0 {
        let init = items.drop_last();
        lemma_slot(init, x, before);
        let k = slot(init, x, before);
        assert forall|i: int| 0 <= i < slot(items, x, before) implies !before(
            x,
            #[trigger] items[i],
        ) by {
            if i < init.len() {
                assert(init[i] == items[i]);
            }
        }
        if k < init.len() {
            assert(init[k] == items[k]);
        }
    }
}

/// The place of `x` is the first item that it precedes.
proof fn lemma_slot_is<A>(items: Seq<A>, x: A, before: spec_fn(A, A) -> bool, at: int)
    requires
        0 <= at <= items.len(),
        forall|i: int| 0 <= i < at ==> !before(x, #[trigger] items[i]),
        at < items.len() ==> before(x, items[at]),
    ensures
        slot(items, x, before) == at,
{
    lemma_slot(items, x, before);
    let k = slot(items, x, before);
    if k < at {
        assert(before(x, items[k]));
    } else if at < k {
        assert(before(x, items[at]));
    }
}

/// What is put in order is in order.
proof fn lemma_ordered<A>(items: Seq<A>, before: spec_fn(A, A) -> bool)
    requires
        weak_order(before),
    ensures
        is_ordered(in_order_by(items, before), before),
    decreases items.len(),
{
    if items.len() > 0 {
        let init = items.drop_last();
        lemma_ordered(init, before);
        let rest = in_order_by(init, before);
        let x = items.last();
        lemma_slot(rest, x, before);
        let k = slot(rest, x, before);
        let out = rest.insert(k, x);
        assert forall|i: int, j: int| 0 <= i < j < out.len() implies !before(
            #[trigger] out[j],
            #[trigger] out[i],
        ) by {
            if j < k {
                assert(!before(rest[j], rest[i]));
            } else if j == k {
                assert(!before(x, rest[i]));
            } else if i < k {
                assert(!before(rest[j - 1], rest[i]));
            } else if i == k {
                // The first later item follows `x`, and so do those after it.
                assert(before(x, rest[k]));
                if j - 1 > k {
                    assert(!before(rest[j - 1], rest[k]));
                    assert(before(x, rest[j - 1]));
                } else {
                    assert(before(x, rest[j - 1]));
                }
            } else {
                assert(!before(rest[j - 1], rest[i - 1]));
            }
        }
    }
}

proof fn lemma_path_weak_order()
    ensures
        weak_order(path_before()),
{
    assert forall|a: Seq<char>, b: Seq<char>, c: Seq<char>|
        (#[trigger] path_before()(a, b) && !#[trigger] path_before()(c, b) ==> path_before()(
            a,
            c,
        )) && !(path_before()(a, b) && path_before()(b, a)) by {
        lemma_path_order(a, b, c);
    }
}

proof fn lemma_box_weak_order(os: Os, root: Seq<char>)
    ensures
        weak_order(box_before(os, root)),
{
    let f = box_before(os, root);
    assert forall|a: Tiles, b: Tiles, c: Tiles|
        (#[trigger] f(a, b) && !#[trigger] f(c, b) ==> f(a, c)) && !(f(a, b) && f(b, a)) by {
        let x = place(os, a.dir);
        let y = place(os, b.dir);
        let z = place(os, c.dir);
        lemma_place_strict(x, y);
        lemma_place_strict(y, z);
        lemma_place_strict(x, z);
        if place_before(x, y) && place_before(y, z) {
            lemma_place_trans(x, y, z);
        }
    }
}

// ---------------------------------------------------------------------------------------------
// Grouping
// ---------------------------------------------------------------------------------------------

/// The paths in order, without regard to case.
fn sort_paths(paths: &[String]) -> (r: Vec<String>)
    ensures
        strings::views(r@) == in_order_by(strings::views(paths@), path_before()),
{
    let ghost all = strings::views(paths@);
    let ghost before = path_before();
    let mut out: Vec<String> = Vec::new();
    let mut keys: Vec<String> = Vec::new();
    let mut i: usize = 0;
    proof {
        lemma_path_weak_order();
        assert(strings::views(out@) =~= in_order_by(all.take(0), before));
    }
    while i < paths.len()
        invariant
            i <= paths@.len(),
            all == strings::views(paths@),
            before == path_before(),
            weak_order(before),
            strings::views(out@) == in_order_by(all.take(i as int), before),
            out@.len() == keys@.len() == i,
            forall|k: int|
                0 <= k < keys@.len() ==> (#[trigger] keys@[k])@ == strings::lowercase(out@[k]@),
        decreases paths@.len() - i,
    {
        let ghost x = paths@[i as int]@;
        let ghost have = strings::views(out@);
        let key = strings::to_lowercase(paths[i].as_str());
        let mut lo: usize = 0;
        let mut hi: usize = keys.len();
        proof {
            lemma_ordered(all.take(i as int), before);
        }
        while lo < hi
            invariant
                lo <= hi <= keys@.len() == out@.len(),
                have == strings::views(out@),
                before == path_before(),
                weak_order(before),
                is_ordered(have, before),
                key@ == strings::lowercase(x),
                forall|k: int|
                    0 <= k < keys@.len() ==> (#[trigger] keys@[k])@ == strings::lowercase(
                        out@[k]@,
                    ),
                forall|k: int| 0 <= k < lo ==> !before(x, #[trigger] have[k]),
                forall|k: int| hi <= k < have.len() ==> before(x, #[trigger] have[k]),
            decreases hi - lo,
        {
            let mid = lo + (hi - lo) / 2;
            let ghost m = have[mid as int];
            if strings::str_less(key.as_str(), keys[mid].as_str()) {
                proof {
                    assert(before(x, m));
                    assert forall|k: int| mid <= k < have.len() implies before(
                        x,
                        #[trigger] have[k],
                    ) by {
                        if k > mid {
                            assert(!before(have[k], m));
                        }
                    }
                }
                hi = mid;
            } else {
                proof {
                    assert(!before(x, m));
                    assert forall|k: int| 0 <= k <= mid implies !before(x, #[trigger] have[k]) by {
                        if k < mid && before(x, have[k]) {
                            assert(!before(m, have[k]));
                            assert(before(x, m));
                        }
                    }
                }
                lo = mid + 1;
            }
        }
        proof {
            lemma_slot_is(have, x, before, lo as int);
            assert(all.take(i as int + 1).drop_last() =~= all.take(i as int));
            assert(all.take(i as int + 1).last() == x);
        }
        let ghost out0 = out@;
        out.insert(lo, paths[i].clone());
        keys.insert(lo, key);
        assert(strings::views(out@) =~= have.insert(lo as int, x));
        i += 1;
    }
    assert(all.take(i as int) =~= all);
    out
}

/// The place of the box of a directory.
fn find_box(keys: &Vec<String>, key: &str, Ghost(os): Ghost<Os>, Ghost(boxes): Ghost<Seq<Tiles>>) -> (r:
    Option<usize>)
    requires
        keys@.len() == boxes.len(),
        forall|k: int|
            0 <= k < keys@.len() ==> (#[trigger] keys@[k])@ == fskey::key_of(os, boxes[k].dir),
    ensures
        match r {
            Some(i) => box_for(os, boxes, key@) == Some(i as int) && i < boxes.len(),
            None => box_for(os, boxes, key@) is None,
        },
{
    let mut i: usize = 0;
    while i < keys.len()
        invariant
            i <= keys@.len() == boxes.len(),
            forall|k: int|
                0 <= k < keys@.len() ==> (#[trigger] keys@[k])@ == fskey::key_of(
                    os,
                    boxes[k].dir,
                ),
            box_for(os, boxes.take(i as int), key@) is None,
        decreases keys@.len() - i,
    {
        assert(boxes.take(i as int + 1).drop_last() =~= boxes.take(i as int));
        if strings::same_str(keys[i].as_str(), key) {
            proof {
                lemma_box_for_prefix(os, boxes, key@, i as int + 1);
            }
            return Some(i);
        }
        i += 1;
    }
    assert(boxes.take(i as int) =~= boxes);
    None
}

/// A box that is found among the first is found among all.
proof fn lemma_box_for_prefix(os: Os, boxes: Seq<Tiles>, key: Seq<char>, n: int)
    requires
        0 <= n <= boxes.len(),
        box_for(os, boxes.take(n), key) is Some,
    ensures
        box_for(os, boxes, key) == box_for(os, boxes.take(n), key),
    decreases boxes.len() - n,
{
    if n < boxes.len() {
        assert(boxes.take(n + 1).drop_last() =~= boxes.take(n));
        lemma_box_for_prefix(os, boxes, key, n + 1);
    } else {
        assert(boxes.take(n) =~= boxes);
    }
}

/// Paths sorted into the boxes of their directories.
fn box_paths(os: Os, paths: &Vec<String>) -> (r: Vec<CachedBox>)
    ensures
        box_views(r@) == boxed(os, strings::views(paths@)),
{
    let ghost all = strings::views(paths@);
    let mut out: Vec<CachedBox> = Vec::new();
    let mut keys: Vec<String> = Vec::new();
    let mut i: usize = 0;
    assert(box_views(out@) =~= boxed(os, all.take(0)));
    while i < paths.len()
        invariant
            i <= paths@.len(),
            all == strings::views(paths@),
            box_views(out@) == boxed(os, all.take(i as int)),
            keys@.len() == out@.len(),
            forall|k: int|
                0 <= k < keys@.len() ==> (#[trigger] keys@[k])@ == fskey::key_of(os, out@[k].dir@),
        decreases paths@.len() - i,
    {
        let ghost have = box_views(out@);
        let path = paths[i].as_str();
        let parent = paths::parent_of(os, path);
        let name = paths::name_of(os, path);
        let key = fskey::fs_key_str(os, parent.as_str());
        proof {
            assert(all.take(i as int + 1).drop_last() =~= all.take(i as int));
            assert(all.take(i as int + 1).last() == path@);
            assert forall|k: int| 0 <= k < keys@.len() implies (#[trigger] keys@[k])@
                == fskey::key_of(os, have[k].dir) by {}
        }
        let ghost out0 = out@;
        match find_box(&keys, key.as_str(), Ghost(os), Ghost(have)) {
            Some(j) => {
                let b = &mut out[j];
                let ghost files0 = b.files@;
                b.files.push((name, path.to_owned()));
                proof {
                    assert(tile_views(out@[j as int].files@) =~= tile_views(files0).push(
                        tile_of(os, path@),
                    ));
                    assert(out@ =~= out0.update(j as int, out@[j as int]));
                    assert(box_views(out@) =~= with_tile(os, have, path@));
                }
            },
            None => {
                let mut files: Vec<(String, String)> = Vec::new();
                files.push((name, path.to_owned()));
                out.push(CachedBox { dir: parent, files });
                keys.push(key);
                proof {
                    assert(tile_views(files@) =~= seq![tile_of(os, path@)]);
                    assert(box_views(out@) =~= with_tile(os, have, path@));
                }
            },
        }
        i += 1;
    }
    assert(all.take(i as int) =~= all);
    out
}

/// The boxes in order.
fn sort_boxes(os: Os, boxes: Vec<CachedBox>, root: &str) -> (r: Vec<CachedBox>)
    ensures
        box_views(r@) == in_order_by(box_views(boxes@), box_before(os, root@)),
{
    let ghost all = box_views(boxes@);
    let ghost before = box_before(os, root@);
    let ghost mut n: int = 0;
    let mut rest = boxes;
    let mut out: Vec<CachedBox> = Vec::new();
    proof {
        assert(all.take(0) =~= Seq::<Tiles>::empty());
        assert(box_views(out@) =~= in_order_by(all.take(0), before));
        assert(all.skip(0) =~= all);
    }
    while rest.len() > 0
        invariant
            0 <= n <= all.len(),
            before == box_before(os, root@),
            box_views(rest@) == all.skip(n),
            box_views(out@) == in_order_by(all.take(n), before),
        decreases rest@.len(),
    {
        let ghost rest0 = rest@;
        let b = rest.remove(0);
        proof {
            assert(box_views(rest0).len() == rest0.len());
            assert(all.skip(n)[0] == b@);
            assert(b@ == all[n]);
            assert(rest@ =~= rest0.drop_first());
            assert(all.skip(n).drop_first() =~= all.skip(n + 1));
            assert(box_views(rest@) =~= all.skip(n + 1));
        }
        let ghost have = box_views(out@);
        let mut k: usize = 0;
        while k < out.len() && !precedes_box(os, root, &b, &out[k])
            invariant
                k <= out@.len(),
                before == box_before(os, root@),
                have == box_views(out@),
                forall|j: int| 0 <= j < k ==> !before(b@, #[trigger] have[j]),
            decreases out@.len() - k,
        {
            k += 1;
        }
        proof {
            lemma_slot_is(have, b@, before, k as int);
            assert(all.take(n + 1).drop_last() =~= all.take(n));
            assert(all.take(n + 1).last() == b@);
        }
        let ghost bv = b@;
        out.insert(k, b);
        proof {
            assert(box_views(out@) =~= have.insert(k as int, bv));
            n = n + 1;
        }
    }
    proof {
        assert(box_views(rest@).len() == 0);
        assert(all.take(n) =~= all);
    }
    out
}

/// Whether a box precedes another.
fn precedes_box(os: Os, root: &str, a: &CachedBox, b: &CachedBox) -> (r: bool)
    ensures
        r == box_before(os, root@)(a@, b@),
{
    match dir_box_order(os, root, a.dir.as_str(), b.dir.as_str()) {
        Ordering::Less => true,
        _ => false,
    }
}

/// Groups files into the boxes in which they are shown.
pub fn group_tile_boxes(os: Os, paths: &[String], root: &str) -> (r: Vec<CachedBox>)
    ensures
        box_views(r@) == arranged(os, strings::views(paths@), root@),
{
    let sorted = sort_paths(paths);
    let boxes = box_paths(os, &sorted);
    sort_boxes(os, boxes, root)
}

// ---------------------------------------------------------------------------------------------
// Keeping the arrangement
// ---------------------------------------------------------------------------------------------

/// The arrangement last made, and what it was made from.
#[derive(Debug, Clone)]
pub struct TileLayout {
    /// The boxes.
    pub boxes: Vec<CachedBox>,
    /// The revision of the set of files.
    pub rev: u64,
    /// The watched directory.
    pub root: String,
    /// How many tiles stand side by side.
    pub tiles_per_box: usize,
    /// An arrangement has been made.
    pub built: bool,
}

/// The arrangement last made, and what it was made from.
#[verifier::ext_equal]
pub struct Arrangement {
    /// The boxes.
    pub boxes: Seq<Tiles>,
    /// The revision of the set of files.
    pub rev: u64,
    /// The watched directory.
    pub root: Seq<char>,
    /// How many tiles stand side by side.
    pub tiles_per_box: usize,
    /// An arrangement has been made.
    pub built: bool,
}

impl View for TileLayout {
    type V = Arrangement;

    open spec fn view(&self) -> Arrangement {
        Arrangement {
            boxes: box_views(self.boxes@),
            rev: self.rev,
            root: self.root@,
            tiles_per_box: self.tiles_per_box,
            built: self.built,
        }
    }
}

/// No arrangement.
pub open spec fn none_made() -> Arrangement {
    Arrangement { boxes: seq![], rev: 0, root: seq![], tiles_per_box: 0, built: false }
}

/// The paths of the tracked files.
pub open spec fn paths_of(files: Seq<session::File>) -> Seq<Seq<char>> {
    files.map_values(|f: session::File| f.path)
}

/// An arrangement made now.
pub open spec fn made(s: Session, root: Seq<char>, tiles_per_box: usize) -> Arrangement {
    Arrangement {
        boxes: arranged(s.os, paths_of(s.files), root),
        rev: s.structure_rev,
        root,
        tiles_per_box,
        built: true,
    }
}

/// Whether an arrangement still stands: nothing that it was made from has changed.
pub open spec fn stands(a: Arrangement, s: Session, root: Seq<char>, tiles_per_box: usize) -> bool {
    a.built && a.rev == s.structure_rev && a.tiles_per_box == tiles_per_box && a.root == root
}

/// The arrangement that is shown: the last one where it stands, else a new one.
pub open spec fn refreshed(
    a: Arrangement,
    s: Session,
    root: Seq<char>,
    tiles_per_box: usize,
) -> Arrangement {
    if stands(a, s, root, tiles_per_box) {
        a
    } else {
        made(s, root, tiles_per_box)
    }
}

impl Default for TileLayout {
    fn default() -> (r: Self)
        ensures
            r@ == none_made(),
    {
        let r = TileLayout {
            boxes: Vec::new(),
            rev: 0,
            root: String::new(),
            tiles_per_box: 0,
            built: false,
        };
        assert(r@ =~= none_made());
        r
    }
}

impl TileLayout {
    /// Makes a new arrangement if the last one does not stand.
    pub fn refresh(&mut self, model: &SessionModel, root: &str, tiles_per_box: usize)
        ensures
            final(self)@ == refreshed(old(self)@, model@, root@, tiles_per_box),
    {
        let rev = model.structure_rev();
        if self.built && self.rev == rev && self.tiles_per_box == tiles_per_box
            && strings::same_str(self.root.as_str(), root) {
            return ;
        }
        let entries = model.entries();
        let mut paths: Vec<String> = Vec::new();
        let mut i: usize = 0;
        while i < entries.len()
            invariant
                i <= entries@.len(),
                paths@.len() == i,
                forall|k: int| 0 <= k < i ==> (#[trigger] paths@[k])@ == entries@[k]@.path,
            decreases entries@.len() - i,
        {
            paths.push(entries[i].path.clone());
            i += 1;
        }
        assert(strings::views(paths@) =~= paths_of(model@.files));
        let boxes = group_tile_boxes(model.os(), paths.as_slice(), root);
        self.boxes = boxes;
        self.rev = rev;
        self.root = root.to_owned();
        self.tiles_per_box = tiles_per_box;
        self.built = true;
    }
}

// ---------------------------------------------------------------------------------------------
// Tiles
// ---------------------------------------------------------------------------------------------

/// The colour of a file's tile.
pub open spec fn colour(v: ButtonVis) -> [u8; 3] {
    match v {
        ButtonVis::Idle => [0xE0, 0xE0, 0xE0],
        ButtonVis::Open => [0x8F, 0xB8, 0xE0],
        ButtonVis::ActiveOpen => [0x4C, 0xC2, 0x4C],
        ButtonVis::ActiveClosed => [0xF2, 0xC7, 0x4C],
        ButtonVis::Unread => [0xF2, 0xC7, 0x4C],
        ButtonVis::Missing => [0xE0, 0x6C, 0x6C],
    }
}

/// The colour of a file's tile.
pub fn vis_color(v: ButtonVis) -> (r: [u8; 3])
    ensures
        r == colour(v),
{
    match v {
        ButtonVis::Idle => [0xE0, 0xE0, 0xE0],
        ButtonVis::Open => [0x8F, 0xB8, 0xE0],
        ButtonVis::ActiveOpen => [0x4C, 0xC2, 0x4C],
        ButtonVis::ActiveClosed => [0xF2, 0xC7, 0x4C],
        ButtonVis::Unread => [0xF2, 0xC7, 0x4C],
        ButtonVis::Missing => [0xE0, 0x6C, 0x6C],
    }
}

/// The colour of a tile at a phase of the blink: only an active file without a window blinks.
pub fn tile_fill(v: ButtonVis, bright: bool) -> (r: [u8; 3])
    ensures
        r == (if v == ButtonVis::ActiveClosed && !bright {
            [0x8Cu8, 0x72u8, 0x2Cu8]
        } else {
            colour(v)
        }),
{
    match v {
        ButtonVis::ActiveClosed if !bright => [0x8C, 0x72, 0x2C],
        _ => vis_color(v),
    }
}

/// Some name among the tiles is long.
pub open spec fn has_long_name(files: Seq<(Seq<char>, Seq<char>)>) -> bool {
    exists|i: int| 0 <= i < files.len() && (#[trigger] files[i]).0.len() > LONG_NAME_CHARS
}

/// Whether the tiles of a box are wide: a long name makes all of them so.
pub fn is_wide(b: &CachedBox) -> (r: bool)
    ensures
        r == has_long_name(b@.files),
{
    let mut i: usize = 0;
    while i < b.files.len()
        invariant
            i <= b.files@.len(),
            forall|k: int| 0 <= k < i ==> (#[trigger] b@.files[k]).0.len() <= LONG_NAME_CHARS,
        decreases b.files@.len() - i,
    {
        if strings::chars_of(b.files[i].0.as_str()).len() > LONG_NAME_CHARS {
            assert(b@.files[i as int].0.len() > LONG_NAME_CHARS);
            return true;
        }
        assert(b@.files[i as int].0.len() <= LONG_NAME_CHARS);
        i += 1;
    }
    assert(b@.files.len() == b.files@.len());
    false
}

/// How many tiles stand side by side: half as many where they are wide, and at least one.
pub fn columns(tiles_per_box: usize, wide: bool) -> (r: usize)
    ensures
        r == (if !wide {
            tiles_per_box as int
        } else if tiles_per_box < 2 {
            1
        } else {
            tiles_per_box as int / 2
        }),
{
    if !wide {
        tiles_per_box
    } else if tiles_per_box < 2 {
        1
    } else {
        tiles_per_box / 2
    }
}

/// The line above a box.
pub fn box_title(dir: &str) -> (r: String)
    ensures
        r@ == (if dir@.len() == 0 {
            "."@
        } else {
            dir@
        }),
{
    proof {
        strings::lemma_empty_text(dir@);
    }
    if dir.as_bytes().len() == 0 {
        ".".to_owned()
    } else {
        dir.to_owned()
    }
}

/// What stands where there are no boxes.
pub fn empty_text(running: bool) -> (r: &'static str)
    ensures
        r@ == (if running {
            "Watching... no matching files yet."@
        } else {
            "Stopped. Press Start Watching to begin."@
        }),
{
    if running {
        "Watching... no matching files yet."
    } else {
        "Stopped. Press Start Watching to begin."
    }
}

/// The left of the status line: a note where there is one, else what is watched.
pub open spec fn status_words(
    note: Option<Seq<char>>,
    running: bool,
    dir: Seq<char>,
    patterns: Seq<Seq<char>>,
) -> Seq<char> {
    match note {
        Some(n) => n,
        None => if running {
            "watching "@ + dir + " ("@ + (if patterns.len() == 0 {
                GlobMatcher::DEFAULT_PATTERNS_STR@
            } else {
                strings::joined(patterns, ' ')
            }) + ")"@
        } else {
            "stopped"@
        },
    }
}

/// The left of the status line.
pub fn status_text(note: Option<&str>, running: bool, dir: &str, patterns: &[String]) -> (r: String)
    ensures
        r@ == status_words(
            match note {
                Some(n) => Some(n@),
                None => None,
            },
            running,
            dir@,
            strings::views(patterns@),
        ),
{
    match note {
        Some(n) => n.to_owned(),
        None => {
            if !running {
                return "stopped".to_owned();
            }
            let mut out = "watching ".to_owned();
            out.push_str(dir);
            out.push_str(" (");
            if patterns.len() == 0 {
                out.push_str(GlobMatcher::DEFAULT_PATTERNS_STR);
            } else {
                out.push_str(strings::join(patterns, ' ').as_str());
            }
            out.push_str(")");
            out
        },
    }
}

/// The right of the status line: how many windows are open, of how many.
pub fn count_text(open: i32, allowed: i32) -> (r: String)
    ensures
        r@ == "Open Windows: "@ + strings::signed_decimal(open as int) + " of "@
            + strings::signed_decimal(allowed as int),
{
    let mut out = "Open Windows: ".to_owned();
    out.push_str(strings::signed_decimal_of(open as i64).as_str());
    out.push_str(" of ");
    out.push_str(strings::signed_decimal_of(allowed as i64).as_str());
    out
}

// ---------------------------------------------------------------------------------------------
// Laws
// ---------------------------------------------------------------------------------------------

/// All tiles of all boxes.
pub open spec fn all_tiles(boxes: Seq<Tiles>) -> vstd::multiset::Multiset<(Seq<char>, Seq<char>)>
    decreases boxes.len(),
{
    if boxes.len() == 0 {
        vstd::multiset::Multiset::empty()
    } else {
        all_tiles(boxes.drop_last()).add(boxes.last().files.to_multiset())
    }
}

proof fn lemma_box_for(os: Os, boxes: Seq<Tiles>, key: Seq<char>)
    ensures
        box_for(os, boxes, key) matches Some(i) ==> 0 <= i < boxes.len() && fskey::key_of(
            os,
            boxes[i].dir,
        ) == key,
        box_for(os, boxes, key) is None ==> forall|i: int|
            0 <= i < boxes.len() ==> fskey::key_of(os, (#[trigger] boxes[i]).dir) != key,
    decreases boxes.len(),
{
    if boxes.len() > 0 {
        let init = boxes.drop_last();
        lemma_box_for(os, init, key);
        if box_for(os, boxes, key) is None {
            assert forall|i: int| 0 <= i < boxes.len() implies fskey::key_of(
                os,
                (#[trigger] boxes[i]).dir,
            ) != key by {
                if i < init.len() {
                    assert(init[i] == boxes[i]);
                }
            }
        }
    }
}

/// One more tile in a box is one more tile.
proof fn lemma_all_tiles_update(boxes: Seq<Tiles>, i: int, t: (Seq<char>, Seq<char>))
    requires
        0 <= i < boxes.len(),
    ensures
        all_tiles(boxes.update(i, Tiles { files: boxes[i].files.push(t), ..boxes[i] }))
            == all_tiles(boxes).insert(t),
    decreases boxes.len(),
{
    let nb = Tiles { files: boxes[i].files.push(t), ..boxes[i] };
    let after = boxes.update(i, nb);
    let init = boxes.drop_last();
    if i == boxes.len() - 1 {
        assert(after.drop_last() =~= init);
        vstd::seq_lib::to_multiset_build(boxes[i].files, t);
    } else {
        lemma_all_tiles_update(init, i, t);
        assert(after.drop_last() =~= init.update(i, nb));
        assert(after.last() == boxes.last());
    }
    assert(all_tiles(after) =~= all_tiles(boxes).insert(t));
}

proof fn lemma_boxed_tiles(os: Os, paths: Seq<Seq<char>>)
    ensures
        all_tiles(boxed(os, paths)) == tiles_of(os, paths),
    decreases paths.len(),
{
    if paths.len() > 0 {
        let init = paths.drop_last();
        lemma_boxed_tiles(os, init);
        let have = boxed(os, init);
        let p = paths.last();
        let key = fskey::key_of(os, paths::parent_dir(os, p));
        lemma_box_for(os, have, key);
        match box_for(os, have, key) {
            Some(i) => {
                lemma_all_tiles_update(have, i, tile_of(os, p));
            },
            None => {
                let nb = Tiles { dir: paths::parent_dir(os, p), files: seq![tile_of(os, p)] };
                assert(have.push(nb).drop_last() =~= have);
                assert(nb.files =~= Seq::empty().push(tile_of(os, p)));
                vstd::seq_lib::to_multiset_build(
                    Seq::<(Seq<char>, Seq<char>)>::empty(),
                    tile_of(os, p),
                );
                Seq::<(Seq<char>, Seq<char>)>::empty().to_multiset_ensures();
                assert(all_tiles(have.push(nb)) =~= all_tiles(have).insert(tile_of(os, p)));
            },
        }
    }
}

/// The tiles of files.
pub open spec fn tiles_of(os: Os, paths: Seq<Seq<char>>) -> vstd::multiset::Multiset<
    (Seq<char>, Seq<char>),
>
    decreases paths.len(),
{
    if paths.len() == 0 {
        vstd::multiset::Multiset::empty()
    } else {
        tiles_of(os, paths.drop_last()).insert(tile_of(os, paths.last()))
    }
}

proof fn lemma_tiles_insert(os: Os, paths: Seq<Seq<char>>, k: int, p: Seq<char>)
    requires
        0 <= k <= paths.len(),
    ensures
        tiles_of(os, paths.insert(k, p)) == tiles_of(os, paths).insert(tile_of(os, p)),
    decreases paths.len(),
{
    let after = paths.insert(k, p);
    if k == paths.len() {
        assert(after.drop_last() =~= paths);
    } else {
        let init = paths.drop_last();
        lemma_tiles_insert(os, init, k, p);
        assert(after.drop_last() =~= init.insert(k, p));
        assert(after.last() == paths.last());
        assert(tiles_of(os, after) =~= tiles_of(os, paths).insert(tile_of(os, p)));
    }
}

proof fn lemma_tiles_sorted(os: Os, paths: Seq<Seq<char>>)
    ensures
        tiles_of(os, in_order_by(paths, path_before())) == tiles_of(os, paths),
    decreases paths.len(),
{
    if paths.len() > 0 {
        let init = paths.drop_last();
        lemma_tiles_sorted(os, init);
        let rest = in_order_by(init, path_before());
        lemma_slot(rest, paths.last(), path_before());
        lemma_tiles_insert(os, rest, slot(rest, paths.last(), path_before()), paths.last());
    } else {
        assert(in_order_by(paths, path_before()) =~= paths);
    }
}

proof fn lemma_all_tiles_insert(boxes: Seq<Tiles>, k: int, b: Tiles)
    requires
        0 <= k <= boxes.len(),
    ensures
        all_tiles(boxes.insert(k, b)) == all_tiles(boxes).add(b.files.to_multiset()),
    decreases boxes.len(),
{
    let after = boxes.insert(k, b);
    if k == boxes.len() {
        assert(after.drop_last() =~= boxes);
    } else {
        let init = boxes.drop_last();
        lemma_all_tiles_insert(init, k, b);
        assert(after.drop_last() =~= init.insert(k, b));
        assert(after.last() == boxes.last());
        assert(all_tiles(after) =~= all_tiles(boxes).add(b.files.to_multiset()));
    }
}

proof fn lemma_all_tiles_sorted(boxes: Seq<Tiles>, before: spec_fn(Tiles, Tiles) -> bool)
    ensures
        all_tiles(in_order_by(boxes, before)) == all_tiles(boxes),
    decreases boxes.len(),
{
    if boxes.len() > 0 {
        let init = boxes.drop_last();
        lemma_all_tiles_sorted(init, before);
        let rest = in_order_by(init, before);
        lemma_slot(rest, boxes.last(), before);
        lemma_all_tiles_insert(rest, slot(rest, boxes.last(), before), boxes.last());
    } else {
        assert(in_order_by(boxes, before) =~= boxes);
    }
}

/// Every file has a tile, and no file has two.
pub proof fn every_file_has_its_tile(os: Os, paths: Seq<Seq<char>>, root: Seq<char>)
    ensures
        all_tiles(arranged(os, paths, root)) == tiles_of(os, paths),
{
    lemma_tiles_sorted(os, paths);
    lemma_boxed_tiles(os, in_order_by(paths, path_before()));
    lemma_all_tiles_sorted(boxed(os, in_order_by(paths, path_before())), box_before(os, root));
}

/// The boxes stand in order: none precedes an earlier one. So the watched directory comes first,
/// and the others follow component by component, without regard to case.
pub proof fn boxes_stand_in_order(os: Os, paths: Seq<Seq<char>>, root: Seq<char>, i: int, j: int)
    requires
        0 <= i < j < arranged(os, paths, root).len(),
    ensures
        !dir_before(
            os,
            root,
            arranged(os, paths, root)[j].dir,
            arranged(os, paths, root)[i].dir,
        ),
        is_root(os, root, arranged(os, paths, root)[j].dir) ==> is_root(
            os,
            root,
            arranged(os, paths, root)[i].dir,
        ),
{
    lemma_box_weak_order(os, root);
    let b = boxed(os, in_order_by(paths, path_before()));
    lemma_ordered(b, box_before(os, root));
    assert(!box_before(os, root)(arranged(os, paths, root)[j], arranged(os, paths, root)[i]));
}

/// One place lies beneath another.
pub open spec fn is_beneath(low: PathView, high: PathView) -> bool {
    &&& low.prefix == high.prefix
    &&& low.rooted == high.rooted
    &&& high.parts.len() < low.parts.len()
    &&& low.parts.take(high.parts.len() as int) == high.parts
}

/// A directory lies beneath another.
pub open spec fn lies_beneath(os: Os, low: Seq<char>, high: Seq<char>) -> bool {
    is_beneath(place(os, low), place(os, high))
}

proof fn lemma_beginning_first(a: Seq<Seq<char>>, b: Seq<Seq<char>>)
    requires
        a.len() < b.len(),
        b.take(a.len() as int) == a,
    ensures
        parts_before(a, b),
    decreases a.len(),
{
    if a.len() > 0 {
        assert(a[0] == b[0]);
        assert(b.drop_first().take(a.len() - 1) =~= a.drop_first());
        lemma_beginning_first(a.drop_first(), b.drop_first());
    }
}

/// What stands between a beginning and what it is the beginning of has that beginning too.
proof fn lemma_between(a: Seq<Seq<char>>, c: Seq<Seq<char>>, b: Seq<Seq<char>>)
    requires
        a.len() < b.len(),
        b.take(a.len() as int) == a,
        parts_before(a, c),
        parts_before(c, b),
    ensures
        a.len() < c.len(),
        c.take(a.len() as int) == a,
    decreases a.len(),
{
    if a.len() == 0 {
        assert(c.take(0) =~= a);
    } else {
        assert(a[0] == b[0]);
        table::lemma_precedes_strict(a[0], c[0]);
        let a1 = a.drop_first();
        let b1 = b.drop_first();
        let c1 = c.drop_first();
        assert(b1.take(a1.len() as int) =~= a1);
        lemma_between(a1, c1, b1);
        assert forall|i: int| 0 <= i < a.len() implies #[trigger] c[i] == a[i] by {
            if i > 0 {
                assert(c1.take(a1.len() as int)[i - 1] == a1[i - 1]);
            }
        }
        assert(c.take(a.len() as int) =~= a);
    }
}

/// A directory precedes all that lies beneath it, unless what lies beneath it is the watched one.
pub proof fn a_directory_precedes_its_own(os: Os, root: Seq<char>, high: Seq<char>, low: Seq<char>)
    requires
        lies_beneath(os, low, high),
        !is_root(os, root, low),
    ensures
        dir_before(os, root, high, low),
{
    lemma_beginning_first(place(os, high).parts, place(os, low).parts);
}

/// Nothing stands between a directory and what lies beneath it but what lies beneath it too. Before
/// all others stands the watched directory, wherever it lies.
pub proof fn a_directory_keeps_its_own_together(
    os: Os,
    root: Seq<char>,
    high: Seq<char>,
    between: Seq<char>,
    low: Seq<char>,
)
    requires
        lies_beneath(os, low, high),
        !is_root(os, root, high),
        dir_before(os, root, high, between),
        dir_before(os, root, between, low),
    ensures
        lies_beneath(os, between, high),
{
    lemma_places_between(place(os, high), place(os, between), place(os, low));
}

proof fn lemma_places_between(p: PathView, m: PathView, q: PathView)
    requires
        is_beneath(q, p),
        place_before(p, m),
        place_before(m, q),
    ensures
        is_beneath(m, p),
{
    table::lemma_precedes_strict(p.prefix, m.prefix);
    lemma_between(p.parts, m.parts, q.parts);
}

/// Directories side by side are ordered by their names.
pub proof fn neighbours_are_ordered_by_name(
    os: Os,
    root: Seq<char>,
    a: Seq<char>,
    b: Seq<char>,
    above: Seq<Seq<char>>,
    x: Seq<char>,
    y: Seq<char>,
)
    requires
        place(os, a).prefix == place(os, b).prefix,
        place(os, a).rooted == place(os, b).rooted,
        place(os, a).parts == above.push(x),
        place(os, b).parts == above.push(y),
        table::precedes(x, y),
        !is_root(os, root, b),
    ensures
        dir_before(os, root, a, b),
{
    lemma_side_by_side(above, x, y);
}

proof fn lemma_side_by_side(above: Seq<Seq<char>>, x: Seq<char>, y: Seq<char>)
    requires
        table::precedes(x, y),
    ensures
        parts_before(above.push(x), above.push(y)),
    decreases above.len(),
{
    if above.len() > 0 {
        lemma_side_by_side(above.drop_first(), x, y);
        assert(above.push(x).drop_first() =~= above.drop_first().push(x));
        assert(above.push(y).drop_first() =~= above.drop_first().push(y));
    }
}

/// The boxes are arranged depth first: between the box of a directory, other than the watched one,
/// and that of one beneath it stand only boxes of what is beneath it too, or of another spelling of
/// the same directory.
pub proof fn boxes_stand_depth_first(
    os: Os,
    paths: Seq<Seq<char>>,
    root: Seq<char>,
    i: int,
    j: int,
    k: int,
)
    requires
        0 <= i < j < k < arranged(os, paths, root).len(),
        !is_root(os, root, arranged(os, paths, root)[i].dir),
        lies_beneath(os, arranged(os, paths, root)[k].dir, arranged(os, paths, root)[i].dir),
    ensures
        lies_beneath(os, arranged(os, paths, root)[j].dir, arranged(os, paths, root)[i].dir)
            || place(os, arranged(os, paths, root)[j].dir) == place(
            os,
            arranged(os, paths, root)[i].dir,
        ),
{
    let boxes = arranged(os, paths, root);
    boxes_stand_in_order(os, paths, root, i, j);
    boxes_stand_in_order(os, paths, root, j, k);
    boxes_stand_in_order(os, paths, root, i, k);
    let p = place(os, boxes[i].dir);
    let m = place(os, boxes[j].dir);
    let q = place(os, boxes[k].dir);
    lemma_place_strict(p, m);
    lemma_place_strict(m, q);
    if p != m && m != q {
        lemma_places_between(p, m, q);
    }
}

/// Boxes of different directories.
pub open spec fn apart(os: Os, boxes: Seq<Tiles>) -> bool {
    forall|i: int, j: int|
        0 <= i < j < boxes.len() ==> fskey::key_of(os, (#[trigger] boxes[i]).dir)
            != fskey::key_of(os, (#[trigger] boxes[j]).dir)
}

proof fn lemma_boxed_apart(os: Os, paths: Seq<Seq<char>>)
    ensures
        apart(os, boxed(os, paths)),
    decreases paths.len(),
{
    if paths.len() > 0 {
        let init = paths.drop_last();
        lemma_boxed_apart(os, init);
        let have = boxed(os, init);
        let key = fskey::key_of(os, paths::parent_dir(os, paths.last()));
        lemma_box_for(os, have, key);
        let after = boxed(os, paths);
        assert forall|i: int, j: int| 0 <= i < j < after.len() implies fskey::key_of(
            os,
            (#[trigger] after[i]).dir,
        ) != fskey::key_of(os, (#[trigger] after[j]).dir) by {
            if j < have.len() {
                assert(fskey::key_of(os, have[i].dir) != fskey::key_of(os, have[j].dir));
            } else {
                assert(fskey::key_of(os, have[i].dir) != key);
            }
        }
    }
}

proof fn lemma_apart_sorted(os: Os, boxes: Seq<Tiles>, before: spec_fn(Tiles, Tiles) -> bool)
    requires
        apart(os, boxes),
    ensures
        apart(os, in_order_by(boxes, before)),
        forall|k: int|
            0 <= k < in_order_by(boxes, before).len() ==> boxes.contains(
                #[trigger] in_order_by(boxes, before)[k],
            ),
    decreases boxes.len(),
{
    if boxes.len() > 0 {
        let init = boxes.drop_last();
        assert forall|i: int, j: int| 0 <= i < j < init.len() implies fskey::key_of(
            os,
            (#[trigger] init[i]).dir,
        ) != fskey::key_of(os, (#[trigger] init[j]).dir) by {
            assert(boxes[i] == init[i] && boxes[j] == init[j]);
        }
        lemma_apart_sorted(os, init, before);
        let rest = in_order_by(init, before);
        let x = boxes.last();
        lemma_slot(rest, x, before);
        let k = slot(rest, x, before);
        let out = rest.insert(k, x);
        assert forall|m: int| 0 <= m < rest.len() implies fskey::key_of(
            os,
            (#[trigger] rest[m]).dir,
        ) != fskey::key_of(os, x.dir) && boxes.contains(rest[m]) by {
            assert(init.contains(rest[m]));
            let q = choose|q: int| 0 <= q < init.len() && init[q] == rest[m];
            assert(boxes[q] == rest[m]);
            assert(x == boxes[boxes.len() - 1]);
        }
        assert forall|i: int, j: int| 0 <= i < j < out.len() implies fskey::key_of(
            os,
            (#[trigger] out[i]).dir,
        ) != fskey::key_of(os, (#[trigger] out[j]).dir) by {
            let a = if i < k {
                i
            } else {
                i - 1
            };
            let b = if j < k {
                j
            } else {
                j - 1
            };
            if i == k {
                assert(out[j] == rest[b]);
            } else if j == k {
                assert(out[i] == rest[a]);
            } else {
                assert(out[i] == rest[a] && out[j] == rest[b]);
            }
        }
        assert forall|m: int| 0 <= m < out.len() implies boxes.contains(#[trigger] out[m]) by {
            if m == k {
                assert(boxes[boxes.len() - 1] == x);
            } else if m < k {
                assert(out[m] == rest[m]);
            } else {
                assert(out[m] == rest[m - 1]);
            }
        }
    }
}

/// No directory has two boxes: two spellings of one directory share a box exactly where the names
/// of the system do not differ by case.
pub proof fn one_box_for_a_directory(os: Os, paths: Seq<Seq<char>>, root: Seq<char>)
    ensures
        apart(os, arranged(os, paths, root)),
{
    let sorted = in_order_by(paths, path_before());
    lemma_boxed_apart(os, sorted);
    lemma_apart_sorted(os, boxed(os, sorted), box_before(os, root));
}

/// An arrangement that was made from the files as they were shows the files as they are: the
/// revision changes with every file that comes to be tracked.
pub proof fn new_files_are_shown(
    s: Session,
    path: Seq<char>,
    root: Seq<char>,
    tiles_per_box: usize,
)
    requires
        session::distinct(s.os, s.files),
        s.files.len() <= session::MAX_FILES,
    ensures
        refreshed(made(s, root, tiles_per_box), session::admitted(s, path), root, tiles_per_box)
            == made(session::admitted(s, path), root, tiles_per_box),
{
    session::revision_tells_the_set_apart(s, path);
    let a = session::admitted(s, path);
    if a.structure_rev == s.structure_rev {
        assert(a.files == s.files);
    }
}

/// Putting items in order loses none and adds none.
proof fn lemma_order_keeps<A>(items: Seq<A>, before: spec_fn(A, A) -> bool, x: A)
    ensures
        in_order_by(items, before).contains(x) <==> items.contains(x),
        in_order_by(items, before).len() == items.len(),
    decreases items.len(),
{
    if items.len() == 0 {
        assert(in_order_by(items, before) =~= items);
    } else {
        let init = items.drop_last();
        let y = items.last();
        lemma_order_keeps(init, before, x);
        let rest = in_order_by(init, before);
        lemma_slot(rest, y, before);
        let k = slot(rest, y, before);
        let out = rest.insert(k, y);
        assert(out[k] == y);
        assert(items[items.len() - 1] == y);
        if items.contains(x) {
            let i = choose|i: int| 0 <= i < items.len() && items[i] == x;
            if i < init.len() {
                assert(init[i] == x);
                let j = choose|j: int| 0 <= j < rest.len() && rest[j] == x;
                assert(out[if j < k {
                    j
                } else {
                    j + 1
                }] == x);
            }
        }
        if out.contains(x) {
            let j = choose|j: int| 0 <= j < out.len() && out[j] == x;
            if j != k {
                assert(rest[if j < k {
                    j
                } else {
                    j - 1
                }] == x);
                let i = choose|i: int| 0 <= i < init.len() && init[i] == x;
                assert(items[i] == x);
            }
        }
    }
}

/// What always holds of boxes: each tile shows a path and its name, in the box of its directory; no
/// box is empty; tiles stand as their paths came.
spec fn well_boxed(os: Os, paths: Seq<Seq<char>>, boxes: Seq<Tiles>) -> bool {
    &&& forall|b: int|
        0 <= b < boxes.len() ==> (#[trigger] boxes[b]).files.len() > 0
    &&& forall|b: int, t: int|
        0 <= b < boxes.len() && 0 <= t < boxes[b].files.len() ==> {
            let tile = #[trigger] boxes[b].files[t];
            &&& paths.contains(tile.1)
            &&& tile.0 == paths::name_at_end(os, tile.1)
            &&& fskey::key_of(os, paths::parent_dir(os, tile.1)) == fskey::key_of(
                os,
                boxes[b].dir,
            )
        }
    &&& forall|b: int, t: int, u: int|
        0 <= b < boxes.len() && 0 <= t < u < boxes[b].files.len() ==> !path_before()(
            (#[trigger] boxes[b].files[u]).1,
            (#[trigger] boxes[b].files[t]).1,
        )
}

proof fn lemma_well_boxed(os: Os, paths: Seq<Seq<char>>)
    requires
        is_ordered(paths, path_before()),
    ensures
        well_boxed(os, paths, boxed(os, paths)),
        forall|p: Seq<char>|
            #[trigger] paths.contains(p) ==> exists|b: int, t: int|
                0 <= b < boxed(os, paths).len() && 0 <= t < boxed(os, paths)[b].files.len()
                    && #[trigger] boxed(os, paths)[b].files[t] == (paths::name_at_end(os, p), p),
    decreases paths.len(),
{
    let all = boxed(os, paths);
    if paths.len() > 0 {
        let init = paths.drop_last();
        let p = paths.last();
        let last = paths.len() - 1;
        assert(is_ordered(init, path_before())) by {
            assert forall|i: int, j: int| 0 <= i < j < init.len() implies !path_before()(
                #[trigger] init[j],
                #[trigger] init[i],
            ) by {
                assert(init[i] == paths[i] && init[j] == paths[j]);
            }
        }
        lemma_well_boxed(os, init);
        let have = boxed(os, init);
        let parent = paths::parent_dir(os, p);
        let key = fskey::key_of(os, parent);
        lemma_box_for(os, have, key);
        let tile = tile_of(os, p);
        assert(paths[last] == p);
        assert forall|q: Seq<char>| #[trigger] init.contains(q) implies paths.contains(q)
            && !path_before()(p, q) by {
            let i = choose|i: int| 0 <= i < init.len() && init[i] == q;
            assert(paths[i] == q);
            assert(!path_before()(paths[last], paths[i]));
        }
        let at: int = match box_for(os, have, key) {
            Some(i) => i,
            None => have.len() as int,
        };
        assert forall|b: int, t: int| 0 <= b < all.len() && 0 <= t < all[b].files.len() implies {
            let x = #[trigger] all[b].files[t];
            &&& paths.contains(x.1)
            &&& x.0 == paths::name_at_end(os, x.1)
            &&& fskey::key_of(os, paths::parent_dir(os, x.1)) == fskey::key_of(os, all[b].dir)
        } by {
            if b == at && t == all[b].files.len() - 1 {
                assert(all[b].files[t] == tile);
            } else {
                assert(all[b].files[t] == have[b].files[t]);
                assert(init.contains(have[b].files[t].1));
            }
        }
        assert forall|b: int, t: int, u: int|
            0 <= b < all.len() && 0 <= t < u < all[b].files.len() implies !path_before()(
            (#[trigger] all[b].files[u]).1,
            (#[trigger] all[b].files[t]).1,
        ) by {
            assert(all[b].files[t] == have[b].files[t]);
            if b == at && u == all[b].files.len() - 1 {
                assert(all[b].files[u] == tile);
                assert(init.contains(have[b].files[t].1));
            } else {
                assert(all[b].files[u] == have[b].files[u]);
            }
        }
        assert forall|q: Seq<char>| #[trigger] paths.contains(q) implies exists|b: int, t: int|
            0 <= b < all.len() && 0 <= t < all[b].files.len() && #[trigger] all[b].files[t] == (
            paths::name_at_end(os, q),
            q,
        ) by {
            let i = choose|i: int| 0 <= i < paths.len() && paths[i] == q;
            if i == last {
                assert(all[at].files[all[at].files.len() - 1] == tile);
            } else {
                assert(init[i] == q);
                assert(init.contains(q));
                let (b, t) = choose|b: int, t: int|
                    0 <= b < have.len() && 0 <= t < have[b].files.len()
                        && #[trigger] have[b].files[t] == (paths::name_at_end(os, q), q);
                assert(all[b].files[t] == have[b].files[t]);
            }
        }
    } else {
        assert(all.len() == 0);
    }
}

/// Every file is shown under its name in the box of its directory, and nothing else is shown: each
/// tile is that of a file, no box is empty, and within a box the tiles stand by their paths,
/// without regard to case.
pub proof fn every_file_is_shown_in_its_directory(
    os: Os,
    paths: Seq<Seq<char>>,
    root: Seq<char>,
    p: Seq<char>,
)
    ensures
        paths.contains(p) ==> exists|b: int, t: int|
            0 <= b < arranged(os, paths, root).len() && 0 <= t < arranged(
                os,
                paths,
                root,
            )[b].files.len() && #[trigger] arranged(os, paths, root)[b].files[t] == (
            paths::name_at_end(os, p),
            p,
            ),
        forall|b: int|
            0 <= b < arranged(os, paths, root).len() ==> (#[trigger] arranged(
                os,
                paths,
                root,
            )[b]).files.len() > 0,
        forall|b: int, t: int|
            0 <= b < arranged(os, paths, root).len() && 0 <= t < arranged(
                os,
                paths,
                root,
            )[b].files.len() ==> {
                let tile = #[trigger] arranged(os, paths, root)[b].files[t];
                &&& paths.contains(tile.1)
                &&& tile.0 == paths::name_at_end(os, tile.1)
                &&& fskey::key_of(os, paths::parent_dir(os, tile.1)) == fskey::key_of(
                    os,
                    arranged(os, paths, root)[b].dir,
                )
            },
        forall|b: int, t: int, u: int|
            0 <= b < arranged(os, paths, root).len() && 0 <= t < u < arranged(
                os,
                paths,
                root,
            )[b].files.len() ==> !table::precedes(
                strings::lowercase((#[trigger] arranged(os, paths, root)[b].files[u]).1),
                strings::lowercase((#[trigger] arranged(os, paths, root)[b].files[t]).1),
            ),
{
    let sorted = in_order_by(paths, path_before());
    let boxes = boxed(os, sorted);
    let all = arranged(os, paths, root);
    let before = box_before(os, root);
    lemma_path_weak_order();
    lemma_ordered(paths, path_before());
    lemma_well_boxed(os, sorted);
    lemma_order_keeps(paths, path_before(), p);
    if paths.contains(p) {
        assert(sorted.contains(p));
        let (b, t) = choose|b: int, t: int|
            0 <= b < boxes.len() && 0 <= t < boxes[b].files.len() && #[trigger] boxes[b].files[t]
                == (paths::name_at_end(os, p), p);
        lemma_order_keeps(boxes, before, boxes[b]);
        assert(boxes.contains(boxes[b]));
        let c = choose|c: int| 0 <= c < all.len() && all[c] == boxes[b];
        assert(all[c].files[t] == (paths::name_at_end(os, p), p));
    }
    assert forall|b: int| 0 <= b < all.len() implies boxes.contains(#[trigger] all[b]) by {
        lemma_order_keeps(boxes, before, all[b]);
        assert(all.contains(all[b]));
    }
    assert forall|b: int| 0 <= b < all.len() implies (#[trigger] all[b]).files.len() > 0 by {
        let c = choose|c: int| 0 <= c < boxes.len() && boxes[c] == all[b];
        assert(boxes[c].files.len() > 0);
    }
    assert forall|b: int, t: int| 0 <= b < all.len() && 0 <= t < all[b].files.len() implies {
        let tile = #[trigger] all[b].files[t];
        &&& paths.contains(tile.1)
        &&& tile.0 == paths::name_at_end(os, tile.1)
        &&& fskey::key_of(os, paths::parent_dir(os, tile.1)) == fskey::key_of(os, all[b].dir)
    } by {
        assert(boxes.contains(all[b]));
        let c = choose|c: int| 0 <= c < boxes.len() && boxes[c] == all[b];
        let tile = boxes[c].files[t];
        assert(sorted.contains(tile.1));
        lemma_order_keeps(paths, path_before(), tile.1);
    }
    assert forall|b: int, t: int, u: int|
        0 <= b < all.len() && 0 <= t < u < all[b].files.len() implies !table::precedes(
        strings::lowercase((#[trigger] all[b].files[u]).1),
        strings::lowercase((#[trigger] all[b].files[t]).1),
    ) by {
        assert(boxes.contains(all[b]));
        let c = choose|c: int| 0 <= c < boxes.len() && boxes[c] == all[b];
        assert(!path_before()(boxes[c].files[u].1, boxes[c].files[t].1));
    }
}

/// The box of the watched directory, however it is spelled there, is the first; of the others, two
/// that lie side by side stand by their names, without regard to case.
pub proof fn the_watched_directory_comes_first(
    os: Os,
    paths: Seq<Seq<char>>,
    root: Seq<char>,
    i: int,
    j: int,
    above: Seq<Seq<char>>,
    x: Seq<char>,
    y: Seq<char>,
)
    requires
        0 <= i < j < arranged(os, paths, root).len(),
    ensures
        arranged(os, paths, root)[j].dir == root ==> paths::located(
            os,
            strings::lowercase(arranged(os, paths, root)[i].dir),
        ) == paths::located(os, strings::lowercase(root)),
        ({
            let a = paths::located(os, strings::lowercase(arranged(os, paths, root)[i].dir));
            let b = paths::located(os, strings::lowercase(arranged(os, paths, root)[j].dir));
            let w = paths::located(os, strings::lowercase(root));
            a != w && b != w && a.prefix == b.prefix && a.rooted == b.rooted && a.parts
                == above.push(x) && b.parts == above.push(y) ==> !table::precedes(y, x)
        }),
{
    boxes_stand_in_order(os, paths, root, i, j);
    let all = arranged(os, paths, root);
    if place(os, all[i].dir).prefix == place(os, all[j].dir).prefix && place(
        os,
        all[i].dir,
    ).rooted == place(os, all[j].dir).rooted && place(os, all[i].dir).parts == above.push(x)
        && place(os, all[j].dir).parts == above.push(y) && table::precedes(y, x) && !is_root(
        os,
        root,
        all[i].dir,
    ) {
        neighbours_are_ordered_by_name(os, root, all[j].dir, all[i].dir, above, y, x);
    }
}

/// An arrangement is made anew where the set of files, the watched directory or the number of tiles
/// side by side is another than it was made from, or none was made; it then shows the files of the
/// model.
pub proof fn an_arrangement_is_made_anew_where_it_must(
    a: Arrangement,
    s: Session,
    root: Seq<char>,
    n: usize,
)
    ensures
        !a.built || a.rev != s.structure_rev || a.root != root || a.tiles_per_box != n
            ==> refreshed(a, s, root, n).boxes == arranged(
            s.os,
            s.files.map_values(|f: session::File| f.path),
            root,
        ) && refreshed(a, s, root, n).built && refreshed(a, s, root, n).rev == s.structure_rev
            && refreshed(a, s, root, n).root == root && refreshed(a, s, root, n).tiles_per_box
            == n,
        a.built && a.rev == s.structure_rev && a.root == root && a.tiles_per_box == n
            ==> refreshed(a, s, root, n) == a,
        !none_made().built && none_made().boxes.len() == 0,
{
    assert(paths_of(s.files) =~= s.files.map_values(|f: session::File| f.path));
}

/// The colours of tiles, the widths of boxes, and the words of the status line.
pub proof fn tiles_look_as_their_files_are(
    files: Seq<(Seq<char>, Seq<char>)>,
    note: Seq<char>,
    dir: Seq<char>,
    patterns: Seq<Seq<char>>,
    running: bool,
)
    ensures
        colour(ButtonVis::Idle) == [0xE0u8, 0xE0u8, 0xE0u8],
        colour(ButtonVis::Open) == [0x8Fu8, 0xB8u8, 0xE0u8],
        colour(ButtonVis::ActiveOpen) == [0x4Cu8, 0xC2u8, 0x4Cu8],
        colour(ButtonVis::ActiveClosed) == [0xF2u8, 0xC7u8, 0x4Cu8],
        colour(ButtonVis::Unread) == [0xF2u8, 0xC7u8, 0x4Cu8],
        colour(ButtonVis::Missing) == [0xE0u8, 0x6Cu8, 0x6Cu8],
        has_long_name(files) <==> exists|i: int|
            0 <= i < files.len() && (#[trigger] files[i]).0.len() > 24,
        status_words(Some(note), running, dir, patterns) == note,
        status_words(None, false, dir, patterns) == "stopped"@,
        patterns.len() > 0 ==> status_words(None, true, dir, patterns) == "watching "@ + dir + " ("@
            + strings::joined(patterns, ' ') + ")"@,
        status_words(None, true, dir, seq![]) == "watching "@ + dir + " ("@ + "*.log *.txt"@
            + ")"@,
{
}

} // verus!
