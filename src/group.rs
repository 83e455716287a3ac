use vstd::multiset::Multiset;
use vstd::prelude::*;
use crate::classify::{is_image, is_image_name};
use crate::text::{
    char_string, concat, lemma_lex_asymmetric, lemma_lex_total, lex_lt, str_lt,
};

verus! {

/// The directory chosen for a scan, as the filesystem reported it.
pub struct ScanRoot {
    /// The root path as a string.
    pub path: String,
    /// The root's final path component, when it has one that is valid text.
    pub name: Option<String>,
    /// The platform's preferred path separator.
    pub separator: char,
    /// Whether the path exists.
    pub exists: bool,
    /// Whether the path is a directory.
    pub is_dir: bool,
}

/// A regular file found in the walk of the root's subtree.
pub struct ScannedFile {
    /// The file's full path.
    pub path: String,
    /// The file's own name, its final path component.
    pub file_name: String,
    /// The directories between the root and the file, outermost first: empty
    /// when the file sits directly in the root, or when its path is not under
    /// the root.
    pub dirs: Vec<String>,
}

/// One group of the result: the root, or a top-level subfolder of it, with the
/// images attributed to it.
pub struct FolderImages {
    pub name: String,
    pub path: String,
    pub images: Vec<String>,
}

/// Why a scan could not be made.
#[derive(Clone, Copy, Debug, PartialEq, Eq, Structural)]
pub enum ScanError {
    /// The root does not exist or is not a directory.
    InvalidRoot,
}

impl ScanError {
    /// The message shown to the user.
    pub fn message(&self) -> (r: String)
        ensures
            r@ == "选择的路径不可用"@,
    {
        "选择的路径不可用".to_owned()
    }
}

/// The group that a file belongs to: `None` for the root itself, else the
/// first directory between the root and the file.
pub open spec fn group_key(f: ScannedFile) -> Option<Seq<char>> {
    if f.dirs@.len() > 0 {
        Some(f.dirs@[0]@)
    } else {
        None
    }
}

/// The paths of the image files of `files` that belong to the group `key`, in
/// the order of `files`.
pub open spec fn images_in(files: Seq<ScannedFile>, key: Option<Seq<char>>) -> Seq<Seq<char>>
    decreases files.len(),
{
    if files.len() == 0 {
        Seq::empty()
    } else {
        let rest = images_in(files.drop_last(), key);
        let f = files.last();
        if is_image_name(f.file_name@) && group_key(f) == key {
            rest.push(f.path@)
        } else {
            rest
        }
    }
}

/// The display name of the root group.
pub open spec fn root_label(name: Option<String>) -> Seq<char> {
    match name {
        Some(n) => n@,
        None => "根目录"@,
    }
}

/// The path of the child `name` of the directory `dir`: a separator goes
/// between them unless `dir` is empty or already ends with one.
pub open spec fn join_path(dir: Seq<char>, name: Seq<char>, sep: char) -> Seq<char> {
    if dir.len() > 0 && dir.last() != '/' && dir.last() != sep {
        dir + seq![sep] + name
    } else {
        dir + name
    }
}

/// The strings of `v`, as character sequences.
pub open spec fn views(v: Seq<String>) -> Seq<Seq<char>> {
    v.map_values(|s: String| s@)
}

/// Each entry is no smaller than the one before it.
pub open spec fn ascending(s: Seq<Seq<char>>) -> bool {
    forall|i: int| 0 <= i < s.len() - 1 ==> !lex_lt(#[trigger] s[i + 1], s[i])
}

/// A group holds exactly the images `expected`, in ascending order.
pub open spec fn holds_images(g: FolderImages, expected: Seq<Seq<char>>) -> bool {
    &&& ascending(views(g.images@))
    &&& views(g.images@).to_multiset() == expected.to_multiset()
}

/// The name of a string under Unicode lower-casing.
pub uninterp spec fn lower_of(s: Seq<char>) -> Seq<char>;

/// The order of subfolder groups: by lower-cased name, and names that are
/// equal when lower-cased by the names themselves.
pub open spec fn group_before(a: Seq<char>, b: Seq<char>) -> bool {
    lex_lt(lower_of(a), lower_of(b)) || (lower_of(a) == lower_of(b) && lex_lt(a, b))
}

/// `g` is the grouping of the images among `files` under `root`: the root
/// group first, then one group for each top-level subfolder that holds an
/// image, in `group_before` order; each group holds its images in ascending
/// order.
pub open spec fn is_grouping(root: ScanRoot, files: Seq<ScannedFile>, g: Seq<FolderImages>) -> bool {
    &&& g.len() >= 1
    &&& g[0].name@ == root_label(root.name)
    &&& g[0].path@ == root.path@
    &&& holds_images(g[0], images_in(files, None))
    &&& forall|i: int|
        1 <= i < g.len() ==> {
            &&& (#[trigger] g[i]).path@ == join_path(root.path@, g[i].name@, root.separator)
            &&& images_in(files, Some(g[i].name@)).len() > 0
            &&& holds_images(g[i], images_in(files, Some(g[i].name@)))
        }
    &&& forall|i: int, j: int| 1 <= i < j < g.len() ==> (#[trigger] g[i]).name@ != (#[trigger] g[j]).name@
    &&& forall|k: int|
        0 <= k < files.len() && is_image_name((#[trigger] files[k]).file_name@) && group_key(files[k]) is Some
            ==> exists|i: int| 1 <= i < g.len() && (#[trigger] g[i]).name@ == group_key(files[k])->0
    &&& forall|i: int|
        1 <= i < g.len() - 1 ==> group_before((#[trigger] g[i]).name@, g[i + 1].name@)
}

/// Relies on `str::to_lowercase`: the result depends on the characters alone.
#[verifier::external_body]
fn lowercase(s: &str) -> (r: String)
    ensures
        r@ == lower_of(s@),
{
    s.to_lowercase()
}

/// Whether a group named `a` comes before one named `b`.
pub fn folder_before(a: &str, b: &str) -> (r: bool)
    ensures
        r == group_before(a@, b@),
{
    let la = lowercase(a);
    let lb = lowercase(b);
    str_lt(la.as_str(), lb.as_str()) || (la == lb && str_lt(a, b))
}

pub proof fn lemma_group_before_total(a: Seq<char>, b: Seq<char>)
    ensures
        a != b ==> group_before(a, b) || group_before(b, a),
        group_before(a, b) ==> !group_before(b, a),
{
    lemma_lex_total(lower_of(a), lower_of(b));
    lemma_lex_total(a, b);
    lemma_lex_asymmetric(lower_of(a), lower_of(b));
    lemma_lex_asymmetric(a, b);
}

proof fn lemma_insert_multiset(s: Seq<Seq<char>>, j: int, x: Seq<char>)
    requires
        0 <= j <= s.len(),
    ensures
        s.insert(j, x).to_multiset() == s.to_multiset().insert(x),
{
    broadcast use vstd::seq_lib::group_to_multiset_ensures;

    let t = s.insert(j, x);
    assert(t.remove(j) == s);
    assert(t.contains(x)) by {
        assert(t[j] == x);
    }
    assert(t.to_multiset() =~= s.to_multiset().insert(x));
}

/// Puts `x` into the ascending list `v` at its place.
pub fn insert_sorted(v: &mut Vec<String>, x: String)
    requires
        ascending(views(old(v)@)),
    ensures
        ascending(views(final(v)@)),
        views(final(v)@).to_multiset() == views(old(v)@).to_multiset().insert(x@),
{
    let mut j: usize = 0;
    while j < v.len() && !str_lt(x.as_str(), v[j].as_str())
        invariant
            j <= v.len(),
            v@ == old(v)@,
            forall|i: int| 0 <= i < j ==> !lex_lt(x@, #[trigger] views(v@)[i]),
        decreases v.len() - j,
    {
        j = j + 1;
    }
    let ghost before = views(v@);
    let ghost xv = x@;
    proof {
        if j < v.len() {
            lemma_lex_asymmetric(xv, before[j as int]);
        }
    }
    v.insert(j, x);
    proof {
        assert(views(v@) == before.insert(j as int, xv));
        lemma_insert_multiset(before, j as int, xv);
        assert forall|i: int| 0 <= i < views(v@).len() - 1 implies !lex_lt(
            #[trigger] views(v@)[i + 1],
            views(v@)[i],
        ) by {
            if i + 1 < j {
                assert(views(v@)[i + 1] == before[i + 1]);
                assert(views(v@)[i] == before[i]);
                assert(!lex_lt(before[i + 1], before[i]));
            } else if i + 1 == j {
                assert(views(v@)[i + 1] == xv);
                assert(views(v@)[i] == before[i]);
                assert(!lex_lt(xv, before[i]));
            } else if i == j {
                assert(views(v@)[i + 1] == before[i]);
                assert(views(v@)[i] == xv);
                assert(!lex_lt(before[i], xv));
            } else {
                assert(views(v@)[i + 1] == before[i]);
                assert(views(v@)[i] == before[i - 1]);
                let k = i - 1;
                assert(!lex_lt(before[k + 1], before[k]));
            }
        }
    }
}

} // verus!

verus! {

proof fn lemma_images_step(files: Seq<ScannedFile>, idx: int)
    requires
        0 <= idx < files.len(),
    ensures
        forall|k: Option<Seq<char>>|
            #[trigger] images_in(files.take(idx + 1), k) == if is_image_name(
                files[idx].file_name@,
            ) && group_key(files[idx]) == k {
                images_in(files.take(idx), k).push(files[idx].path@)
            } else {
                images_in(files.take(idx), k)
            },
{
    assert(files.take(idx + 1).drop_last() == files.take(idx));
    assert(files.take(idx + 1).last() == files[idx]);
}

pub proof fn lemma_images_in_witness(files: Seq<ScannedFile>, key: Option<Seq<char>>)
    requires
        images_in(files, key).len() > 0,
    ensures
        exists|k: int|
            0 <= k < files.len() && is_image_name((#[trigger] files[k]).file_name@) && group_key(
                files[k],
            ) == key,
    decreases files.len(),
{
    let rest = files.drop_last();
    if is_image_name(files.last().file_name@) && group_key(files.last()) == key {
        assert(files[files.len() - 1] == files.last());
    } else {
        lemma_images_in_witness(rest, key);
        let k = choose|k: int|
            0 <= k < rest.len() && is_image_name((#[trigger] rest[k]).file_name@) && group_key(
                rest[k],
            ) == key;
        assert(files[k] == rest[k]);
    }
}

/// The root directory's display name.
pub fn root_display_name(name: &Option<String>) -> (r: String)
    ensures
        r@ == root_label(*name),
{
    match name {
        Some(n) => n.clone(),
        None => "根目录".to_owned(),
    }
}

/// The path of the child `name` of the directory `dir`.
pub fn child_path(dir: &str, name: &str, sep: char) -> (r: String)
    ensures
        r@ == join_path(dir@, name@, sep),
{
    let v = crate::text::chars_of(dir);
    if v.len() > 0 && v[v.len() - 1] != '/' && v[v.len() - 1] != sep {
        let s = char_string(sep);
        let d = concat(dir, s.as_str());
        concat(d.as_str(), name)
    } else {
        concat(dir, name)
    }
}

fn add_to_group(
    root: &ScanRoot,
    files: &Vec<ScannedFile>,
    idx: usize,
    groups: &mut Vec<FolderImages>,
    i: usize,
)
    requires
        idx < files@.len(),
        is_grouping(*root, files@.take(idx as int), old(groups)@),
        is_image_name(files@[idx as int].file_name@),
        i < old(groups)@.len(),
        i == 0 ==> group_key(files@[idx as int]) is None,
        i > 0 ==> group_key(files@[idx as int]) == Some(old(groups)@[i as int].name@),
    ensures
        is_grouping(*root, files@.take(idx + 1), final(groups)@),
{
    broadcast use vstd::seq_lib::group_to_multiset_ensures;

    proof {
        lemma_images_step(files@, idx as int);
    }
    let ghost prefix = files@.take(idx as int);
    let ghost next = files@.take(idx + 1);
    let ghost old_groups = groups@;
    insert_sorted(&mut groups[i].images, files[idx].path.clone());
    proof {
        assert forall|m: int| 0 <= m < groups@.len() && m != i implies (#[trigger] groups@[m])
            == old_groups[m] by {}
        assert forall|m: int| 1 <= m < groups@.len() implies (#[trigger] groups@[m]).name@
            == old_groups[m].name@ by {}
        assert forall|m: int| 1 <= m < groups@.len() && m != i implies group_key(files@[idx as int])
            != Some((#[trigger] groups@[m]).name@) by {}
        assert forall|k: int|
            0 <= k < next.len() && is_image_name((#[trigger] next[k]).file_name@) && group_key(
                next[k],
            ) is Some implies exists|m: int|
            1 <= m < groups@.len() && (#[trigger] groups@[m]).name@ == group_key(next[k])->0 by {
            if k < idx {
                assert(next[k] == prefix[k]);
                let m = choose|m: int|
                    1 <= m < old_groups.len() && (#[trigger] old_groups[m]).name@ == group_key(
                        prefix[k],
                    )->0;
                assert(groups@[m].name@ == old_groups[m].name@);
            } else {
                assert(next[k] == files@[idx as int]);
                assert(groups@[i as int].name@ == old_groups[i as int].name@);
            }
        }
    }
}

fn add_new_group(
    root: &ScanRoot,
    files: &Vec<ScannedFile>,
    idx: usize,
    groups: &mut Vec<FolderImages>,
)
    requires
        idx < files@.len(),
        is_grouping(*root, files@.take(idx as int), old(groups)@),
        is_image_name(files@[idx as int].file_name@),
        files@[idx as int].dirs@.len() > 0,
        forall|m: int|
            1 <= m < old(groups)@.len() ==> (#[trigger] old(groups)@[m]).name@
                != files@[idx as int].dirs@[0]@,
    ensures
        is_grouping(*root, files@.take(idx + 1), final(groups)@),
{
    broadcast use vstd::seq_lib::group_to_multiset_ensures;

    proof {
        lemma_images_step(files@, idx as int);
    }
    let ghost prefix = files@.take(idx as int);
    let ghost next = files@.take(idx + 1);
    let ghost old_groups = groups@;
    let f = &files[idx];
    let name = &f.dirs[0];
    let ghost n = name@;
    let mut j: usize = 1;
    while j < groups.len()
        invariant
            1 <= j <= groups.len(),
            groups@ == old_groups,
            n == name@,
            forall|m: int| 1 <= m < j ==> !group_before(n, (#[trigger] groups@[m]).name@),
        ensures
            1 <= j <= groups.len(),
            forall|m: int| 1 <= m < j ==> !group_before(n, (#[trigger] groups@[m]).name@),
            j < groups.len() ==> group_before(n, groups@[j as int].name@),
        decreases groups.len() - j,
    {
        if folder_before(name.as_str(), groups[j].name.as_str()) {
            break;
        }
        j = j + 1;
    }
    let mut images: Vec<String> = Vec::new();
    let ghost empty = views(images@);
    proof {
        assert(empty == Seq::<Seq<char>>::empty());
    }
    insert_sorted(&mut images, f.path.clone());
    let g = FolderImages {
        name: name.clone(),
        path: child_path(root.path.as_str(), name.as_str(), root.separator),
        images,
    };
    proof {
        if j > 1 {
            lemma_group_before_total(n, old_groups[j - 1].name@);
        }
        if j < old_groups.len() {
            lemma_group_before_total(n, old_groups[j as int].name@);
        }
        if images_in(prefix, Some(n)).len() > 0 {
            lemma_images_in_witness(prefix, Some(n));
            let k = choose|k: int|
                0 <= k < prefix.len() && is_image_name((#[trigger] prefix[k]).file_name@)
                    && group_key(prefix[k]) == Some(n);
            assert(group_key(prefix[k]) is Some);
        }
        assert(images_in(prefix, Some(n)) == empty);
        assert(images_in(next, Some(n)) == empty.push(f.path@));
    }
    groups.insert(j, g);
    proof {
        let jj = j as int;
        assert(groups@ == old_groups.insert(jj, g));
        assert(groups@[0] == old_groups[0]);
        assert forall|m: int| 1 <= m < groups@.len() implies {
            &&& (#[trigger] groups@[m]).path@ == join_path(
                root.path@,
                groups@[m].name@,
                root.separator,
            )
            &&& images_in(next, Some(groups@[m].name@)).len() > 0
            &&& holds_images(groups@[m], images_in(next, Some(groups@[m].name@)))
        } by {
            if m < jj {
                assert(groups@[m] == old_groups[m]);
                assert(old_groups[m].name@ != n);
            } else if m > jj {
                assert(groups@[m] == old_groups[m - 1]);
                assert(old_groups[m - 1].name@ != n);
            }
        }
        assert forall|a: int, b: int| 1 <= a < b < groups@.len() implies (
        #[trigger] groups@[a]).name@ != (#[trigger] groups@[b]).name@ by {
            if a < jj {
                assert(groups@[a] == old_groups[a]);
            } else if a > jj {
                assert(groups@[a] == old_groups[a - 1]);
            }
            if b < jj {
                assert(groups@[b] == old_groups[b]);
            } else if b > jj {
                assert(groups@[b] == old_groups[b - 1]);
            }
        }
        assert forall|k: int|
            0 <= k < next.len() && is_image_name((#[trigger] next[k]).file_name@) && group_key(
                next[k],
            ) is Some implies exists|m: int|
            1 <= m < groups@.len() && (#[trigger] groups@[m]).name@ == group_key(next[k])->0 by {
            if k < idx {
                assert(next[k] == prefix[k]);
                let m = choose|m: int|
                    1 <= m < old_groups.len() && (#[trigger] old_groups[m]).name@ == group_key(
                        prefix[k],
                    )->0;
                if m < jj {
                    assert(groups@[m] == old_groups[m]);
                } else {
                    assert(groups@[m + 1] == old_groups[m]);
                }
            } else {
                assert(next[k] == files@[idx as int]);
                assert(groups@[jj].name@ == n);
            }
        }
        assert forall|m: int| 1 <= m < groups@.len() - 1 implies group_before(
            (#[trigger] groups@[m]).name@,
            groups@[m + 1].name@,
        ) by {
            if m + 1 < jj {
                assert(groups@[m] == old_groups[m]);
                assert(groups@[m + 1] == old_groups[m + 1]);
            } else if m + 1 == jj {
                assert(groups@[m] == old_groups[m]);
            } else if m == jj {
                assert(groups@[m + 1] == old_groups[m]);
            } else {
                assert(groups@[m + 1] == old_groups[m]);
                assert(groups@[m] == old_groups[m - 1]);
                let q = m - 1;
                assert(group_before(old_groups[q].name@, old_groups[q + 1].name@));
            }
        }
    }
}

fn add_file(root: &ScanRoot, files: &Vec<ScannedFile>, idx: usize, groups: &mut Vec<FolderImages>)
    requires
        idx < files@.len(),
        is_grouping(*root, files@.take(idx as int), old(groups)@),
    ensures
        is_grouping(*root, files@.take(idx + 1), final(groups)@),
{
    let f = &files[idx];
    if !is_image(f.file_name.as_str()) {
        proof {
            lemma_images_step(files@, idx as int);
            let prefix = files@.take(idx as int);
            let next = files@.take(idx + 1);
            assert forall|k: int|
                0 <= k < next.len() && is_image_name((#[trigger] next[k]).file_name@) && group_key(
                    next[k],
                ) is Some implies exists|m: int|
                1 <= m < groups@.len() && (#[trigger] groups@[m]).name@ == group_key(next[k])->0 by {
                assert(next[k] == prefix[k]);
            }
        }
    } else if f.dirs.len() == 0 {
        add_to_group(root, files, idx, groups, 0);
    } else {
        let name = &f.dirs[0];
        let mut i: usize = 1;
        while i < groups.len() && !(groups[i].name == *name)
            invariant
                1 <= i <= groups.len(),
                groups@ == old(groups)@,
                forall|m: int| 1 <= m < i ==> (#[trigger] groups@[m]).name@ != name@,
            decreases groups.len() - i,
        {
            i = i + 1;
        }
        if i < groups.len() {
            add_to_group(root, files, idx, groups, i);
        } else {
            add_new_group(root, files, idx, groups);
        }
    }
}

/// Groups the image files among `files`, found under `root`: the root group
/// first, then one group for each top-level subfolder that holds an image.
pub fn group_images(root: &ScanRoot, files: &Vec<ScannedFile>) -> (r: Vec<FolderImages>)
    ensures
        is_grouping(*root, files@, r@),
{
    let mut groups: Vec<FolderImages> = Vec::new();
    groups.push(
        FolderImages {
            name: root_display_name(&root.name),
            path: root.path.clone(),
            images: Vec::new(),
        },
    );
    proof {
        assert(files@.take(0) == Seq::<ScannedFile>::empty());
        assert(views(groups@[0].images@) == Seq::<Seq<char>>::empty());
    }
    let mut idx: usize = 0;
    while idx < files.len()
        invariant
            idx <= files.len(),
            is_grouping(*root, files@.take(idx as int), groups@),
        decreases files.len() - idx,
    {
        add_file(root, files, idx, &mut groups);
        idx = idx + 1;
    }
    proof {
        assert(files@.take(files@.len() as int) == files@);
    }
    groups
}

} // verus!

verus! {

/// Scans the images under `root`, given the regular files that a walk of its
/// subtree could read. Fails when the root does not exist or is not a
/// directory; otherwise returns its grouping.
pub fn load_images_from_dir(root: &ScanRoot, files: &Vec<ScannedFile>) -> (r: Result<
    Vec<FolderImages>,
    ScanError,
>)
    ensures
        r is Err <==> !(root.exists && root.is_dir),
        r is Err ==> r == Err::<Vec<FolderImages>, ScanError>(ScanError::InvalidRoot),
        r matches Ok(g) ==> is_grouping(*root, files@, g@),
{
    if !root.exists || !root.is_dir {
        return Err(ScanError::InvalidRoot);
    }
    Ok(group_images(root, files))
}

} // verus!
