//! What the directory scan decides: which files are images, which paths
//! were seen before, and in what order the images are shown.

use crate::command::{is_letter, letter_matches};
use crate::text::{chars_of, texts};
use vstd::prelude::*;

verus! {

/// `path` ends in a dot and the letters of `ext`, in either case, and the dot
/// does not begin the file's name.
pub open spec fn ends_in_extension(path: Seq<char>, ext: Seq<char>) -> bool {
    let n = path.len() as int;
    let e = ext.len() as int;
    &&& n >= e + 2
    &&& path[n - e - 1] == '.'
    &&& path[n - e - 2] != '/'
    &&& forall|i: int| 0 <= i < e ==> is_letter(#[trigger] path[n - e + i], ext[i])
}

/// The path of an image: its extension is png, jpg, jpeg or webp, in either
/// case.
pub open spec fn is_image(path: Seq<char>) -> bool {
    ||| ends_in_extension(path, seq!['p', 'n', 'g'])
    ||| ends_in_extension(path, seq!['j', 'p', 'g'])
    ||| ends_in_extension(path, seq!['j', 'p', 'e', 'g'])
    ||| ends_in_extension(path, seq!['w', 'e', 'b', 'p'])
}

fn has_extension(path: &Vec<char>, ext: &Vec<char>) -> (r: bool)
    requires
        ext.len() <= 8,
    ensures
        r == ends_in_extension(path@, ext@),
{
    let n = path.len();
    let e = ext.len();
    if n < e + 2 {
        return false;
    }
    if path[n - e - 1] != '.' || path[n - e - 2] == '/' {
        return false;
    }
    let mut i: usize = 0;
    while i < e
        invariant
            i <= e,
            e == ext.len(),
            n == path.len(),
            n >= e + 2,
            forall|j: int| 0 <= j < i ==> is_letter(#[trigger] path@[n - e + j], ext@[j]),
        decreases e - i,
    {
        let c = path[n - e + i];
        let lower = ext[i];
        if !letter_matches(c, lower) {
            assert(!is_letter(path@[n - e + i], ext@[i as int]));
            return false;
        }
        i += 1;
    }
    true
}

/// Whether the scan takes the file at `path` for an image.
pub fn is_image_path(path: &str) -> (r: bool)
    ensures
        r == is_image(path@),
{
    let chars = chars_of(path);
    let png = vec!['p', 'n', 'g'];
    let jpg = vec!['j', 'p', 'g'];
    let jpeg = vec!['j', 'p', 'e', 'g'];
    let webp = vec!['w', 'e', 'b', 'p'];
    assert(png@ =~= seq!['p', 'n', 'g']);
    assert(jpg@ =~= seq!['j', 'p', 'g']);
    assert(jpeg@ =~= seq!['j', 'p', 'e', 'g']);
    assert(webp@ =~= seq!['w', 'e', 'b', 'p']);
    has_extension(&chars, &png) || has_extension(&chars, &jpg) || has_extension(&chars, &jpeg)
        || has_extension(&chars, &webp)
}

/// The path at `i` occurs for the first time there.
pub open spec fn is_first_occurrence(paths: Seq<Seq<char>>, i: int) -> bool {
    forall|j: int| 0 <= j < i ==> #[trigger] paths[j] != paths[i]
}

fn seen_earlier(paths: &Vec<String>, i: usize) -> (r: bool)
    requires
        i < paths.len(),
    ensures
        r == !is_first_occurrence(texts(paths@), i as int),
{
    let mut j: usize = 0;
    while j < i
        invariant
            j <= i < paths.len(),
            forall|k: int| 0 <= k < j ==> #[trigger] texts(paths@)[k] != texts(paths@)[i as int],
        decreases i - j,
    {
        if paths[j] == paths[i] {
            assert(texts(paths@)[j as int] == texts(paths@)[i as int]);
            return true;
        }
        j += 1;
    }
    false
}

/// The positions at which a path occurs for the first time, in rising order:
/// what is left of the list when every later repetition is dropped.
pub fn first_occurrences(paths: &Vec<String>) -> (firsts: Vec<usize>)
    ensures
        forall|a: int, b: int| 0 <= a < b < firsts@.len() ==> firsts@[a] < firsts@[b],
        forall|a: int|
            0 <= a < firsts@.len() ==> (#[trigger] firsts@[a]) < paths@.len()
                && is_first_occurrence(texts(paths@), firsts@[a] as int),
        forall|i: int|
            0 <= i < paths@.len() && is_first_occurrence(texts(paths@), i) ==> exists|a: int|
                0 <= a < firsts@.len() && #[trigger] firsts@[a] == i,
{
    let mut firsts: Vec<usize> = Vec::new();
    let mut i: usize = 0;
    while i < paths.len()
        invariant
            i <= paths.len(),
            forall|a: int, b: int| 0 <= a < b < firsts@.len() ==> firsts@[a] < firsts@[b],
            forall|a: int|
                0 <= a < firsts@.len() ==> (#[trigger] firsts@[a]) < i && is_first_occurrence(
                    texts(paths@),
                    firsts@[a] as int,
                ),
            forall|k: int|
                0 <= k < i && is_first_occurrence(texts(paths@), k) ==> exists|a: int|
                    0 <= a < firsts@.len() && #[trigger] firsts@[a] == k,
        decreases paths.len() - i,
    {
        if !seen_earlier(paths, i) {
            let ghost before = firsts@;
            firsts.push(i);
            assert forall|k: int|
                0 <= k < i + 1 && is_first_occurrence(texts(paths@), k) implies exists|a: int|
                0 <= a < firsts@.len() && #[trigger] firsts@[a] == k by {
                if k < i {
                    let a = choose|a: int| 0 <= a < before.len() && #[trigger] before[a] == k;
                    assert(firsts@[a] == k);
                } else {
                    assert(firsts@[firsts@.len() - 1] == k);
                }
            }
        }
        i += 1;
    }
    firsts
}

/// The file at `i` is shown before the one at `j`: the newer first, and of
/// two files of one time the one that was found first.
pub open spec fn shown_before(times: Seq<i128>, i: int, j: int) -> bool {
    times[i] > times[j] || (times[i] == times[j] && i < j)
}

/// `order` holds the position `i`.
pub open spec fn lists(order: Seq<usize>, i: int) -> bool {
    exists|a: int| 0 <= a < order.len() && #[trigger] order[a] == i
}

/// `order` lists the positions `0..n` of `times`, each once, newest first.
pub open spec fn is_newest_first(times: Seq<i128>, order: Seq<usize>, n: int) -> bool {
    &&& order.len() == n
    &&& forall|a: int| 0 <= a < order.len() ==> (#[trigger] order[a]) < n
    &&& forall|a: int, b: int|
        0 <= a < b < order.len() ==> shown_before(times, order[a] as int, order[b] as int)
    &&& forall|i: int| 0 <= i < n ==> #[trigger] lists(order, i)
}

/// Putting position `n` behind every position whose file is at least as new
/// keeps the order.
proof fn lemma_place(times: Seq<i128>, order: Seq<usize>, n: int, p: int)
    requires
        0 <= n < times.len(),
        n < usize::MAX,
        is_newest_first(times, order, n),
        0 <= p <= order.len(),
        forall|a: int| 0 <= a < p ==> times[(#[trigger] order[a]) as int] >= times[n],
        p < order.len() ==> times[order[p] as int] < times[n],
    ensures
        is_newest_first(times, order.insert(p, n as usize), n + 1),
{
    let after = order.insert(p, n as usize);
    assert forall|a: int, b: int| 0 <= a < b < after.len() implies shown_before(
        times,
        after[a] as int,
        after[b] as int,
    ) by {
        let aa = if a < p { a } else { a - 1 };
        let bb = if b < p { b } else { b - 1 };
        if a != p {
            assert(after[a] == order[aa]);
        }
        if b != p {
            assert(after[b] == order[bb]);
        }
        if a == p && p < bb {
            assert(shown_before(times, order[p] as int, order[bb] as int));
        }
    }
    assert forall|i: int| 0 <= i < n + 1 implies #[trigger] lists(after, i) by {
        if i < n {
            assert(lists(order, i));
            let a0 = choose|a: int| 0 <= a < order.len() && #[trigger] order[a] == i;
            let a1 = if a0 < p { a0 } else { a0 + 1 };
            assert(after[a1] == i);
        } else {
            assert(after[p] == i);
        }
    }
    assert forall|a: int| 0 <= a < after.len() implies (#[trigger] after[a]) < n + 1 by {
        if a < p {
            assert(after[a] == order[a]);
        } else if a > p {
            assert(after[a] == order[a - 1]);
        }
    }
}

/// The order in which scanned files are shown: newest first, files of one
/// time in the order in which they were found. The result lists positions in
/// `times`.
pub fn newest_first(times: &Vec<i128>) -> (order: Vec<usize>)
    ensures
        is_newest_first(times@, order@, times@.len() as int),
{
    let mut order: Vec<usize> = Vec::new();
    let mut n: usize = 0;
    while n < times.len()
        invariant
            n <= times.len(),
            is_newest_first(times@, order@, n as int),
        decreases times.len() - n,
    {
        let mut p: usize = 0;
        while p < order.len() && times[order[p]] >= times[n]
            invariant
                p <= order.len(),
                n < times.len(),
                is_newest_first(times@, order@, n as int),
                forall|a: int| 0 <= a < p ==> times@[(#[trigger] order@[a]) as int] >= times@[n as int],
            decreases order.len() - p,
        {
            p += 1;
        }
        proof {
            lemma_place(times@, order@, n as int, p as int);
        }
        order.insert(p, n);
        n += 1;
    }
    order
}

} // verus!
