//! The names of the files handed to the user.
use vstd::prelude::*;
use vstd::string::{StrSliceExecFns, StringExecFns};

verus! {

/// `s` ends with `suffix`.
pub open spec fn ends_with(s: Seq<char>, suffix: Seq<char>) -> bool {
    s.len() >= suffix.len() && s.subrange(s.len() - suffix.len(), s.len() as int) == suffix
}

/// The image name without a `.png`, `.jpg` or `.jpeg` extension (tried in that order).
pub open spec fn base_image_name_spec(name: Seq<char>) -> Seq<char> {
    if ends_with(name, ".png"@) {
        name.subrange(0, name.len() - 4)
    } else if ends_with(name, ".jpg"@) {
        name.subrange(0, name.len() - 4)
    } else if ends_with(name, ".jpeg"@) {
        name.subrange(0, name.len() - 5)
    } else {
        name
    }
}

fn has_suffix(name: &str, n: usize, suffix: &str) -> (r: bool)
    requires
        n == name@.len(),
    ensures
        r == ends_with(name@, suffix@),
{
    let m: usize = suffix.unicode_len();
    if m > n {
        return false;
    }
    let mut i: usize = 0;
    while i < m
        invariant
            n == name@.len(),
            m == suffix@.len(),
            m <= n,
            i <= m,
            forall|k: int| 0 <= k < i ==> name@[n - m + k] == suffix@[k],
        decreases m - i,
    {
        if name.get_char(n - m + i) != suffix.get_char(i) {
            assert(name@.subrange(n - m, n as int)[i as int] != suffix@[i as int]);
            return false;
        }
        i = i + 1;
    }
    assert(name@.subrange(n - m, n as int) =~= suffix@);
    true
}

/// The image name without its `.png`, `.jpg` or `.jpeg` extension.
pub fn base_image_name(image_name: &str) -> (r: String)
    ensures
        r@ == base_image_name_spec(image_name@),
{
    let n: usize = image_name.unicode_len();
    proof {
        reveal_strlit(".png");
        reveal_strlit(".jpg");
        reveal_strlit(".jpeg");
    }
    let base: &str = if has_suffix(image_name, n, ".png") {
        image_name.substring_char(0, n - 4)
    } else if has_suffix(image_name, n, ".jpg") {
        image_name.substring_char(0, n - 4)
    } else if has_suffix(image_name, n, ".jpeg") {
        image_name.substring_char(0, n - 5)
    } else {
        image_name
    };
    String::from_str(base)
}

/// The name of the color fragment: `{base}_color.png`.
pub fn color_fragment_name(image_name: &str) -> (r: String)
    ensures
        r@ == base_image_name_spec(image_name@) + "_color.png"@,
{
    let mut s = base_image_name(image_name);
    s.append("_color.png");
    s
}

/// The name of the grayscale fragment: `{base}_grayscale.png`.
pub fn grayscale_fragment_name(image_name: &str) -> (r: String)
    ensures
        r@ == base_image_name_spec(image_name@) + "_grayscale.png"@,
{
    let mut s = base_image_name(image_name);
    s.append("_grayscale.png");
    s
}

/// The name of the recovered archive: `{timestamp}_{filename}`.
pub fn zip_download_name(timestamp: &str, filename: &str) -> (r: String)
    ensures
        r@ == timestamp@ + "_"@ + filename@,
{
    let mut s = String::from_str(timestamp);
    s.append("_");
    s.append(filename);
    s
}

/// The name of the recovered author note: `{timestamp}_UTC_author_note.txt`.
pub fn author_note_download_name(timestamp: &str) -> (r: String)
    ensures
        r@ == timestamp@ + "_UTC_author_note.txt"@,
{
    let mut s = String::from_str(timestamp);
    s.append("_UTC_author_note.txt");
    s
}

/// Only the final extension is removed: for every base name `b`, whatever
/// dots it contains, `b.png`, `b.jpg` and `b.jpeg` all give `b`; a name with
/// none of these endings is kept whole.
pub proof fn law_base_name_drops_only_the_extension(b: Seq<char>, name: Seq<char>)
    ensures
        base_image_name_spec(b + ".png"@) == b,
        base_image_name_spec(b + ".jpg"@) == b,
        base_image_name_spec(b + ".jpeg"@) == b,
        !ends_with(name, ".png"@) && !ends_with(name, ".jpg"@) && !ends_with(name, ".jpeg"@)
            ==> base_image_name_spec(name) == name,
{
    reveal_strlit(".png");
    reveal_strlit(".jpg");
    reveal_strlit(".jpeg");
    let p = b + ".png"@;
    assert(p.subrange(p.len() - 4, p.len() as int) =~= ".png"@);
    assert(p.subrange(0, p.len() - 4) =~= b);
    let j = b + ".jpg"@;
    assert(j.subrange(j.len() - 4, j.len() as int) =~= ".jpg"@);
    assert(j.subrange(0, j.len() - 4) =~= b);
    assert(j.subrange(j.len() - 4, j.len() as int)[1] != ".png"@[1]);
    let e = b + ".jpeg"@;
    assert(e.subrange(e.len() - 5, e.len() as int) =~= ".jpeg"@);
    assert(e.subrange(0, e.len() - 5) =~= b);
    assert(e.subrange(e.len() - 4, e.len() as int)[0] != ".png"@[0]);
    assert(e.subrange(e.len() - 4, e.len() as int)[0] != ".jpg"@[0]);
}

} // verus!
