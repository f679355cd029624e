//! The thumbnail cache: keys derived from a source image's identity, the
//! names of the cached files, and the sweep that removes orphaned ones.

use crate::config::{join_path, joined};
use crate::digest::{
    collide, content_digest, digest_bytes, hex_lower, is_hex_digit, lemma_hex_lower_digits,
    lemma_hex_lower_injective, Digest,
};
use crate::text::{
    chars_of, decimal, is_digit, lemma_decimal_digits, lemma_decimal_injective, push_decimal,
    texts,
};
use vstd::prelude::*;
use vstd::string::StringExecFns;
use vstd::utf8::{encode_utf8, encode_utf8_decode_utf8};

verus! {

/// What the file system says of a source image.
#[derive(Clone, Copy, Debug)]
pub struct SourceMeta {
    /// When the file was last modified, in seconds since the epoch.
    pub mtime: u64,
    /// How many bytes the file holds.
    pub length: u64,
}

/// The modification time that enters the key: zero where nothing is known.
pub open spec fn mtime_of(meta: Option<SourceMeta>) -> nat {
    match meta {
        Some(m) => m.mtime as nat,
        None => 0,
    }
}

/// The length that enters the key: zero where nothing is known.
pub open spec fn length_of(meta: Option<SourceMeta>) -> nat {
    match meta {
        Some(m) => m.length as nat,
        None => 0,
    }
}

/// The text that is hashed into a key: the path, the modification time, the
/// length and the thumbnail's dimension, with a bar between them.
pub open spec fn key_text(path: Seq<char>, mtime: nat, length: nat, dimension: nat) -> Seq<char> {
    path + seq!['|'] + decimal(mtime) + seq!['|'] + decimal(length) + seq!['|'] + decimal(
        dimension,
    )
}

/// The cache key of a source image at a thumbnail dimension.
pub open spec fn cache_key(path: Seq<char>, mtime: nat, length: nat, dimension: nat) -> Seq<u8> {
    content_digest(encode_utf8(key_text(path, mtime, length, dimension)))
}

/// The name of the cached file for a key.
pub open spec fn artifact_name_of(key: Seq<u8>) -> Seq<char> {
    hex_lower(key) + ".png"@
}

/// The name under which a thumbnail is written before it takes its place.
pub open spec fn temp_name_of(key: Seq<u8>, nanos: nat) -> Seq<char> {
    hex_lower(key) + "."@ + decimal(nanos) + ".png"@
}

/// Derives the cache key. It is a function of the four inputs alone; where
/// the file system knows nothing of the source, time and length count as
/// zero.
pub fn derive(path: &str, meta: Option<SourceMeta>, target_dimension: u32) -> (key: Digest)
    ensures
        key@ == cache_key(path@, mtime_of(meta), length_of(meta), target_dimension as nat),
        key@.len() == 32,
{
    let (mtime, length) = match meta {
        Some(m) => (m.mtime, m.length),
        None => (0, 0),
    };
    proof {
        reveal_strlit("|");
    }
    let mut text = String::from_str(path);
    text.append("|");
    push_decimal(&mut text, mtime as u128);
    text.append("|");
    push_decimal(&mut text, length as u128);
    text.append("|");
    push_decimal(&mut text, target_dimension as u128);
    assert(text@ =~= key_text(path@, mtime as nat, length as nat, target_dimension as nat));
    digest_bytes(text.as_str().as_bytes())
}

/// The name of the cached file for `key`: its 64 hexadecimal digits and the
/// extension.
pub fn artifact_name(key: &Digest) -> (name: String)
    ensures
        name@ == artifact_name_of(key@),
        name@.len() == 68,
        is_cache_name(name@),
{
    proof {
        lemma_cached_names(key@, 0);
    }
    let mut name = key.to_hex();
    name.append(".png");
    name
}

/// The name under which the thumbnail for `key` is written first. `nanos` is
/// a reading of the clock, so that two writers do not share a name.
pub fn temp_name(key: &Digest, nanos: u128) -> (name: String)
    ensures
        name@ == temp_name_of(key@, nanos as nat),
{
    let mut name = key.to_hex();
    name.append(".");
    push_decimal(&mut name, nanos);
    name.append(".png");
    name
}

/// Where the thumbnail of a source image is cached: below `cache_root`, in a
/// file named by the 64 hexadecimal digits of the key and `.png`.
pub fn cached_thumb_path(
    cache_root: &str,
    img_path: &str,
    meta: Option<SourceMeta>,
    thumb_size: u32,
) -> (p: Option<String>)
    ensures
        p is Some,
        p->0@ == joined(
            cache_root@,
            artifact_name_of(
                cache_key(img_path@, mtime_of(meta), length_of(meta), thumb_size as nat),
            ),
        ),
        ({
            let name = artifact_name_of(
                cache_key(img_path@, mtime_of(meta), length_of(meta), thumb_size as nat),
            );
            &&& name.len() == 68
            &&& is_cache_name(name)
            &&& name == hex_lower(
                cache_key(img_path@, mtime_of(meta), length_of(meta), thumb_size as nat),
            ) + ".png"@
        }),
{
    let key = derive(img_path, meta, thumb_size);
    let name = artifact_name(&key);
    Some(join_path(cache_root, name.as_str()))
}

/// Two texts that end in a bar and a numeral are equal only if what stands
/// before the bar is equal and the numbers are.
proof fn lemma_split_at_last_bar(a: Seq<char>, x: nat, b: Seq<char>, y: nat)
    requires
        a + seq!['|'] + decimal(x) == b + seq!['|'] + decimal(y),
    ensures
        a == b,
        x == y,
{
    let sx = decimal(x);
    let sy = decimal(y);
    let left = a + seq!['|'] + sx;
    let right = b + seq!['|'] + sy;
    lemma_decimal_digits(x);
    lemma_decimal_digits(y);
    assert(left.len() == a.len() + 1 + sx.len());
    assert(right.len() == b.len() + 1 + sy.len());
    if sx.len() < sy.len() {
        let i = a.len() as int;
        assert(left[i] == '|');
        assert(right[i] == sy[i - b.len() - 1]);
        assert(is_digit(sy[i - b.len() - 1]));
        assert(false);
    } else if sy.len() < sx.len() {
        let i = b.len() as int;
        assert(right[i] == '|');
        assert(left[i] == sx[i - a.len() - 1]);
        assert(is_digit(sx[i - a.len() - 1]));
        assert(false);
    } else {
        assert(a.len() == b.len());
        assert forall|i: int| 0 <= i < a.len() implies a[i] == b[i] by {
            assert(left[i] == a[i]);
            assert(right[i] == b[i]);
        }
        assert(a =~= b);
        assert forall|i: int| 0 <= i < sx.len() implies sx[i] == sy[i] by {
            assert(left[a.len() + 1 + i] == sx[i]);
            assert(right[b.len() + 1 + i] == sy[i]);
        }
        assert(sx =~= sy);
        lemma_decimal_injective(x, y);
    }
}

/// The key text tells its four inputs apart: no two different inputs give
/// the same text, whatever the path holds.
pub proof fn lemma_key_text_injective(
    p1: Seq<char>,
    m1: nat,
    l1: nat,
    d1: nat,
    p2: Seq<char>,
    m2: nat,
    l2: nat,
    d2: nat,
)
    requires
        key_text(p1, m1, l1, d1) == key_text(p2, m2, l2, d2),
    ensures
        p1 == p2,
        m1 == m2,
        l1 == l2,
        d1 == d2,
{
    let a1 = p1 + seq!['|'] + decimal(m1) + seq!['|'] + decimal(l1);
    let a2 = p2 + seq!['|'] + decimal(m2) + seq!['|'] + decimal(l2);
    lemma_split_at_last_bar(a1, d1, a2, d2);
    let b1 = p1 + seq!['|'] + decimal(m1);
    let b2 = p2 + seq!['|'] + decimal(m2);
    lemma_split_at_last_bar(b1, l1, b2, l2);
    lemma_split_at_last_bar(p1, m1, p2, m2);
}

/// Sensitivity: a change of the path, the modification time, the length or
/// the dimension changes the key, and with it the name of the cached file,
/// unless the hash function collides on the two key texts.
pub proof fn lemma_key_sensitivity(
    p1: Seq<char>,
    m1: nat,
    l1: nat,
    d1: nat,
    p2: Seq<char>,
    m2: nat,
    l2: nat,
    d2: nat,
)
    requires
        p1 != p2 || m1 != m2 || l1 != l2 || d1 != d2,
    ensures
        cache_key(p1, m1, l1, d1) != cache_key(p2, m2, l2, d2) || collide(
            encode_utf8(key_text(p1, m1, l1, d1)),
            encode_utf8(key_text(p2, m2, l2, d2)),
        ),
        cache_key(p1, m1, l1, d1) != cache_key(p2, m2, l2, d2) ==> artifact_name_of(
            cache_key(p1, m1, l1, d1),
        ) != artifact_name_of(cache_key(p2, m2, l2, d2)),
{
    let t1 = key_text(p1, m1, l1, d1);
    let t2 = key_text(p2, m2, l2, d2);
    if t1 == t2 {
        lemma_key_text_injective(p1, m1, l1, d1, p2, m2, l2, d2);
    }
    if encode_utf8(t1) == encode_utf8(t2) {
        encode_utf8_decode_utf8(t1);
        encode_utf8_decode_utf8(t2);
        assert(t1 == t2);
    }
    let k1 = cache_key(p1, m1, l1, d1);
    let k2 = cache_key(p2, m2, l2, d2);
    if artifact_name_of(k1) == artifact_name_of(k2) {
        let n1 = artifact_name_of(k1);
        let n2 = artifact_name_of(k2);
        assert(hex_lower(k1).len() == 2 * k1.len());
        assert(hex_lower(k2).len() == 2 * k2.len());
        assert(n1.len() == n2.len());
        assert forall|i: int| 0 <= i < hex_lower(k1).len() implies hex_lower(k1)[i] == hex_lower(
            k2,
        )[i] by {
            assert(n1[i] == hex_lower(k1)[i]);
            assert(n2[i] == hex_lower(k2)[i]);
        }
        assert(hex_lower(k1) =~= hex_lower(k2));
        lemma_hex_lower_injective(k1, k2);
    }
}

/// Whether `c` is a hexadecimal digit, with its letters in either case.
pub open spec fn is_hex_char(c: char) -> bool {
    ('0' <= c <= '9') || ('a' <= c <= 'f') || ('A' <= c <= 'F')
}

/// The name of a file of the cache: 64 or more hexadecimal digits and then
/// `.png`. A file of any other name in the cache directory is not the
/// cache's.
pub open spec fn is_cache_name(name: Seq<char>) -> bool {
    let n = name.len() as int;
    &&& n >= 68
    &&& name[n - 4] == '.'
    &&& name[n - 3] == 'p'
    &&& name[n - 2] == 'n'
    &&& name[n - 1] == 'g'
    &&& forall|i: int| 0 <= i < n - 4 ==> is_hex_char(#[trigger] name[i])
}

/// An orphan is a file of the cache that no live image accounts for.
pub open spec fn is_orphan(expected: Seq<Seq<char>>, name: Seq<char>) -> bool {
    is_cache_name(name) && !expected.contains(name)
}

/// The positions in `listing` that hold orphans, in rising order.
pub open spec fn orphan_positions(expected: Seq<Seq<char>>, listing: Seq<Seq<char>>) -> Seq<usize>
    decreases listing.len(),
{
    if listing.len() == 0 {
        Seq::empty()
    } else {
        let rest = orphan_positions(expected, listing.drop_last());
        if is_orphan(expected, listing.last()) {
            rest.push((listing.len() - 1) as usize)
        } else {
            rest
        }
    }
}

/// How many entries of `listing` are among the expected names.
pub open spec fn count_expected(expected: Seq<Seq<char>>, listing: Seq<Seq<char>>) -> nat
    decreases listing.len(),
{
    if listing.len() == 0 {
        0
    } else {
        count_expected(expected, listing.drop_last()) + if expected.contains(listing.last()) {
            1nat
        } else {
            0nat
        }
    }
}

/// The sweep takes exactly the orphans: a position is in the plan if and
/// only if its entry is one, and the plan is in rising order.
pub proof fn lemma_orphan_positions(expected: Seq<Seq<char>>, listing: Seq<Seq<char>>)
    requires
        listing.len() <= usize::MAX,
    ensures
        forall|a: int|
            0 <= a < orphan_positions(expected, listing).len() ==> {
                let i = #[trigger] orphan_positions(expected, listing)[a];
                i < listing.len() && is_orphan(expected, listing[i as int])
            },
        forall|a: int, b: int|
            0 <= a < b < orphan_positions(expected, listing).len() ==> orphan_positions(
                expected,
                listing,
            )[a] < orphan_positions(expected, listing)[b],
        forall|i: int|
            0 <= i < listing.len() && is_orphan(expected, #[trigger] listing[i])
                ==> orphan_positions(expected, listing).contains(i as usize),
    decreases listing.len(),
{
    if listing.len() > 0 {
        let front = listing.drop_last();
        let rest = orphan_positions(expected, front);
        let all = orphan_positions(expected, listing);
        lemma_orphan_positions(expected, front);
        assert forall|i: int| 0 <= i < listing.len() && is_orphan(
            expected,
            #[trigger] listing[i],
        ) implies all.contains(i as usize) by {
            if i < front.len() {
                assert(front[i] == listing[i]);
                let a = choose|a: int| 0 <= a < rest.len() && rest[a] == i as usize;
                assert(all[a] == i as usize);
            } else {
                assert(all[all.len() - 1] == i as usize);
            }
        }
        assert forall|a: int| 0 <= a < all.len() implies {
            let i = #[trigger] all[a];
            i < listing.len() && is_orphan(expected, listing[i as int])
        } by {
            if a < rest.len() {
                assert(all[a] == rest[a]);
                assert(front[rest[a] as int] == listing[rest[a] as int]);
            }
        }
        assert forall|a: int, b: int| 0 <= a < b < all.len() implies all[a] < all[b] by {
            assert(all[a] == rest[a]);
            if b < rest.len() {
                assert(all[b] == rest[b]);
            }
        }
    }
}

/// Sweep correctness: in a cache directory that holds files of the cache
/// only, those that the sweep removes and those that a live image accounts
/// for add up to all of them. With N entries of which M are accounted for,
/// N - M go.
pub proof fn lemma_sweep_counts(expected: Seq<Seq<char>>, listing: Seq<Seq<char>>)
    requires
        forall|i: int| 0 <= i < listing.len() ==> is_cache_name(#[trigger] listing[i]),
    ensures
        orphan_positions(expected, listing).len() + count_expected(expected, listing)
            == listing.len(),
    decreases listing.len(),
{
    if listing.len() > 0 {
        let front = listing.drop_last();
        assert forall|i: int| 0 <= i < front.len() implies is_cache_name(#[trigger] front[i]) by {
            assert(front[i] == listing[i]);
        }
        lemma_sweep_counts(expected, front);
        assert(is_cache_name(listing[listing.len() - 1]));
    }
}

/// Whether a file name is that of a file of the cache.
pub fn is_cached_thumbnail(name: &str) -> (r: bool)
    ensures
        r == is_cache_name(name@),
{
    let chars = chars_of(name);
    let n = chars.len();
    if n < 68 {
        return false;
    }
    if !(chars[n - 4] == '.' && chars[n - 3] == 'p' && chars[n - 2] == 'n' && chars[n - 1] == 'g') {
        return false;
    }
    let mut i: usize = 0;
    while i < n - 4
        invariant
            i <= n - 4,
            n == chars.len(),
            n >= 68,
            chars@ == name@,
            forall|j: int| 0 <= j < i ==> is_hex_char(#[trigger] chars@[j]),
        decreases n - 4 - i,
    {
        let c = chars[i];
        if !(('0' <= c && c <= '9') || ('a' <= c && c <= 'f') || ('A' <= c && c <= 'F')) {
            assert(!is_hex_char(chars@[i as int]));
            return false;
        }
        i += 1;
    }
    true
}

/// Whether `name` is among `names`.
pub fn contains_name(names: &Vec<String>, name: &String) -> (r: bool)
    ensures
        r == texts(names@).contains(name@),
{
    let mut i: usize = 0;
    while i < names.len()
        invariant
            i <= names.len(),
            forall|j: int| 0 <= j < i ==> texts(names@)[j] != name@,
        decreases names.len() - i,
    {
        if names[i] == *name {
            assert(texts(names@)[i as int] == name@);
            return true;
        }
        i += 1;
    }
    false
}

/// Plans the sweep of the cache directory: the positions in `listing` of the
/// entries to delete. An entry goes if its name is that of a file of the
/// cache and is not among the expected ones; every other entry stays.
pub fn sweep_plan(expected: &Vec<String>, listing: &Vec<String>) -> (doomed: Vec<usize>)
    ensures
        doomed@ == orphan_positions(texts(expected@), texts(listing@)),
{
    let mut doomed: Vec<usize> = Vec::new();
    let mut i: usize = 0;
    while i < listing.len()
        invariant
            i <= listing.len(),
            doomed@ == orphan_positions(texts(expected@), texts(listing@).take(i as int)),
        decreases listing.len() - i,
    {
        proof {
            assert(texts(listing@).take(i + 1).drop_last() == texts(listing@).take(i as int));
        }
        if is_cached_thumbnail(listing[i].as_str()) && !contains_name(expected, &listing[i]) {
            doomed.push(i);
        }
        i += 1;
    }
    assert(texts(listing@).take(i as int) == texts(listing@));
    doomed
}

/// A live source image: its path and what the file system says of it.
#[derive(Debug)]
pub struct LiveImage {
    pub path: String,
    pub meta: Option<SourceMeta>,
}

/// The names that the cache is expected to hold for `images`.
pub open spec fn expected_names_of(images: Seq<LiveImage>, dimension: nat) -> Seq<Seq<char>> {
    Seq::new(
        images.len(),
        |i: int|
            artifact_name_of(
                cache_key(
                    images[i].path@,
                    mtime_of(images[i].meta),
                    length_of(images[i].meta),
                    dimension,
                ),
            ),
    )
}

/// The names of the cached thumbnails of `images`, one for each image.
pub fn expected_names(images: &Vec<LiveImage>, thumb_size: u32) -> (names: Vec<String>)
    ensures
        texts(names@) == expected_names_of(images@, thumb_size as nat),
{
    let mut names: Vec<String> = Vec::new();
    let mut i: usize = 0;
    while i < images.len()
        invariant
            i <= images.len(),
            names@.len() == i,
            forall|j: int|
                0 <= j < i ==> (#[trigger] names@[j])@ == expected_names_of(
                    images@,
                    thumb_size as nat,
                )[j],
        decreases images.len() - i,
    {
        let key = derive(images[i].path.as_str(), images[i].meta, thumb_size);
        names.push(artifact_name(&key));
        i += 1;
    }
    assert(texts(names@) =~= expected_names_of(images@, thumb_size as nat));
    names
}

/// Plans the removal of orphaned thumbnails: of the entries of the cache
/// directory, the positions of those that no image of `images` accounts for.
pub fn orphan_thumbnails(images: &Vec<LiveImage>, thumb_size: u32, listing: &Vec<String>) -> (doomed:
    Vec<usize>)
    ensures
        doomed@ == orphan_positions(
            expected_names_of(images@, thumb_size as nat),
            texts(listing@),
        ),
{
    let expected = expected_names(images, thumb_size);
    sweep_plan(&expected, listing)
}

/// Determinism: the key is a function of the path, the modification time,
/// the length and the dimension. Equal inputs give equal keys, in every run.
pub proof fn lemma_key_is_deterministic(
    p1: Seq<char>,
    m1: nat,
    l1: nat,
    d1: nat,
    p2: Seq<char>,
    m2: nat,
    l2: nat,
    d2: nat,
)
    requires
        p1 == p2,
        m1 == m2,
        l1 == l2,
        d1 == d2,
    ensures
        cache_key(p1, m1, l1, d1) == cache_key(p2, m2, l2, d2),
        artifact_name_of(cache_key(p1, m1, l1, d1)) == artifact_name_of(cache_key(p2, m2, l2, d2)),
{
}

/// The name of a cached file is 64 lower-case hexadecimal digits and
/// `.png`, so it is a name of the cache, which the sweep looks at. A
/// temporary name is none: the sweep never takes a file that is being
/// written, and a temporary file that was left behind stays where it is.
pub proof fn lemma_cached_names(key: Seq<u8>, nanos: nat)
    requires
        key.len() == 32,
    ensures
        artifact_name_of(key).len() == 68,
        forall|i: int| 0 <= i < 64 ==> is_hex_digit(#[trigger] artifact_name_of(key)[i]),
        is_cache_name(artifact_name_of(key)),
        !is_cache_name(temp_name_of(key, nanos)),
{
    reveal_strlit(".png");
    reveal_strlit(".");
    lemma_hex_lower_digits(key);
    lemma_decimal_digits(nanos);
    let hex = hex_lower(key);
    let name = artifact_name_of(key);
    assert forall|i: int| 0 <= i < 64 implies is_hex_digit(#[trigger] name[i]) && is_hex_char(
        name[i],
    ) by {
        assert(name[i] == hex[i]);
        assert(is_hex_digit(hex[i]));
    }
    assert(name[64] == ".png"@[0]);
    assert(name[65] == ".png"@[1]);
    assert(name[66] == ".png"@[2]);
    assert(name[67] == ".png"@[3]);
    let temp = temp_name_of(key, nanos);
    assert(temp.len() == 64 + 1 + decimal(nanos).len() + 4);
    assert(temp[64] == "."@[0]);
    assert(!is_hex_char(temp[64]));
}

} // verus!
