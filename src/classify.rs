use vstd::prelude::*;
use crate::text::{ascii_lower, chars_of, lower_char};

verus! {

/// Position of the last `.` among the first `k` characters of `name`, or -1.
pub open spec fn last_dot_before(name: Seq<char>, k: int) -> int
    decreases k,
{
    if k <= 0 {
        -1
    } else if name[k - 1] == '.' {
        k - 1
    } else {
        last_dot_before(name, k - 1)
    }
}

/// The extension of a file name: what follows its last `.`, where that dot is
/// not the name's first character. A name without such a dot has none.
pub open spec fn extension(name: Seq<char>) -> Option<Seq<char>> {
    let d = last_dot_before(name, name.len() as int);
    if d > 0 {
        Some(name.subrange(d + 1, name.len() as int))
    } else {
        None
    }
}

/// The ASCII lower-case form of every character of `s`.
pub open spec fn ascii_lower_seq(s: Seq<char>) -> Seq<char> {
    s.map_values(|c: char| ascii_lower(c))
}

/// The extensions, in lower case, that mark a file as an image.
pub open spec fn is_image_extension(e: Seq<char>) -> bool {
    e == seq!['j', 'p', 'g'] || e == seq!['j', 'p', 'e', 'g'] || e == seq!['p', 'n', 'g']
        || e == seq!['g', 'i', 'f'] || e == seq!['b', 'm', 'p'] || e == seq!['w', 'e', 'b', 'p']
        || e == seq!['t', 'i', 'f', 'f'] || e == seq!['s', 'v', 'g']
}

/// A file is an image when its name has an extension whose lower-case form is
/// one of the image extensions.
pub open spec fn is_image_name(name: Seq<char>) -> bool {
    match extension(name) {
        Some(e) => is_image_extension(ascii_lower_seq(e)),
        None => false,
    }
}

fn same_chars(v: &Vec<char>, w: &[char]) -> (r: bool)
    ensures
        r == (v@ == w@),
{
    if v.len() != w.len() {
        return false;
    }
    let mut i: usize = 0;
    while i < v.len()
        invariant
            i <= v.len(),
            v.len() == w@.len(),
            forall|j: int| 0 <= j < i ==> v@[j] == w@[j],
        decreases v.len() - i,
    {
        if v[i] != w[i] {
            return false;
        }
        i = i + 1;
    }
    assert(v@ == w@);
    true
}

/// Whether a file with this name is an image, judged by its extension alone.
pub fn is_image(file_name: &str) -> (r: bool)
    ensures
        r == is_image_name(file_name@),
{
    let v = chars_of(file_name);
    let mut k: usize = v.len();
    while k > 0 && v[k - 1] != '.'
        invariant
            k <= v.len(),
            v@ == file_name@,
            last_dot_before(v@, v@.len() as int) == last_dot_before(v@, k as int),
        decreases k,
    {
        k = k - 1;
    }
    if k <= 1 {
        return false;
    }
    let mut e: Vec<char> = Vec::new();
    let mut i: usize = k;
    while i < v.len()
        invariant
            k <= i <= v.len(),
            e@ == ascii_lower_seq(v@.subrange(k as int, i as int)),
        decreases v.len() - i,
    {
        e.push(lower_char(v[i]));
        i = i + 1;
        assert(e@ == ascii_lower_seq(v@.subrange(k as int, i as int)));
    }
    assert(v@.subrange(k as int, v.len() as int) == extension(v@)->0);
    same_chars(&e, &['j', 'p', 'g']) || same_chars(&e, &['j', 'p', 'e', 'g'])
        || same_chars(&e, &['p', 'n', 'g']) || same_chars(&e, &['g', 'i', 'f'])
        || same_chars(&e, &['b', 'm', 'p']) || same_chars(&e, &['w', 'e', 'b', 'p'])
        || same_chars(&e, &['t', 'i', 'f', 'f']) || same_chars(&e, &['s', 'v', 'g'])
}

} // verus!
