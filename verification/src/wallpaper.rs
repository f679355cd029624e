//! Picking a wallpaper at random.

use vstd::prelude::*;

verus! {

/// Where a copy of the current wallpaper is kept.
pub const CURRENT_WALLPAPER: &'static str = "/tmp/current_wallpaper";

/// `picked` is one of `paths`, or nothing if there are none.
pub open spec fn is_choice_of(paths: Seq<String>, picked: Option<String>) -> bool {
    match picked {
        Some(p) => exists|i: int| 0 <= i < paths.len() && #[trigger] paths[i]@ == p@,
        None => paths.len() == 0,
    }
}

/// Calls `rand::seq::SliceRandom::choose` on the paths, with the thread's
/// random number generator. Believed: the result is one element of the
/// slice, or nothing if the slice is empty. Which element comes back is left
/// open.
#[verifier::external_body]
fn choose_one(paths: &Vec<String>) -> (picked: Option<String>)
    ensures
        is_choice_of(paths@, picked),
{
    rand::seq::SliceRandom::choose(paths.as_slice(), &mut rand::thread_rng()).cloned()
}

/// One of the scanned wallpapers, picked at random; none if the scan found
/// nothing.
pub fn find_random_wallpaper(wallpapers: &Vec<String>) -> (picked: Option<String>)
    ensures
        is_choice_of(wallpapers@, picked),
{
    choose_one(wallpapers)
}

} // verus!
