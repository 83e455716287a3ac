//! What holds of every scan result, stated over `is_grouping`, the contract of
//! `group_images` and `load_images_from_dir`.
use vstd::prelude::*;
use crate::classify::is_image_name;
use crate::group::{
    ascending, group_before, group_key, images_in, is_grouping, lower_of, views,
    FolderImages, ScanRoot, ScannedFile,
};
use crate::text::{lemma_lex_total, lemma_lex_transitive, lex_lt};

verus! {

/// No two files of the walk have the same path.
pub open spec fn distinct_paths(files: Seq<ScannedFile>) -> bool {
    forall|a: int, b: int|
        0 <= a < b < files.len() ==> (#[trigger] files[a]).path@ != (#[trigger] files[b]).path@
}

/// Every directory name between the root and a file is a real path component:
/// it is not empty.
pub open spec fn names_nonempty(files: Seq<ScannedFile>) -> bool {
    forall|k: int, d: int|
        0 <= k < files.len() && 0 <= d < files[k].dirs@.len() ==> (
        #[trigger] files[k].dirs@[d])@.len() > 0
}

/// The group that the `i`-th group of a result stands for.
pub open spec fn key_at(g: Seq<FolderImages>, i: int) -> Option<Seq<char>> {
    if i == 0 {
        None
    } else {
        Some(g[i].name@)
    }
}

/// Whether the `i`-th group of `g` lists the path `p`.
pub open spec fn lists(g: Seq<FolderImages>, i: int, p: Seq<char>) -> bool {
    views(g[i].images@).contains(p)
}

proof fn lemma_images_in_contains(files: Seq<ScannedFile>, key: Option<Seq<char>>, p: Seq<char>)
    ensures
        images_in(files, key).contains(p) <==> exists|k: int|
            0 <= k < files.len() && is_image_name((#[trigger] files[k]).file_name@) && group_key(
                files[k],
            ) == key && files[k].path@ == p,
    decreases files.len(),
{
    if files.len() > 0 {
        let rest = files.drop_last();
        lemma_images_in_contains(rest, key, p);
        assert forall|k: int| 0 <= k < rest.len() implies #[trigger] rest[k] == files[k] by {}
        let last = files.len() - 1;
        assert(files[last] == files.last());
        if images_in(files, key).contains(p) {
            if !images_in(rest, key).contains(p) {
                let s = images_in(rest, key);
                let i = choose|i: int| 0 <= i < images_in(files, key).len() && images_in(files, key)[i] == p;
                assert(i == s.len());
            }
        }
        if exists|k: int|
            0 <= k < files.len() && is_image_name((#[trigger] files[k]).file_name@) && group_key(
                files[k],
            ) == key && files[k].path@ == p {
            let k = choose|k: int|
                0 <= k < files.len() && is_image_name((#[trigger] files[k]).file_name@) && group_key(
                    files[k],
                ) == key && files[k].path@ == p;
            if k == last {
                let s = images_in(files, key);
                assert(s[s.len() - 1] == p);
            } else {
                assert(rest[k] == files[k]);
                let s = images_in(rest, key);
                let i = choose|i: int| 0 <= i < s.len() && s[i] == p;
                assert(images_in(files, key)[i] == p);
            }
        }
    }
}

proof fn lemma_lists(root: ScanRoot, files: Seq<ScannedFile>, g: Seq<FolderImages>, i: int, p: Seq<char>)
    requires
        is_grouping(root, files, g),
        0 <= i < g.len(),
    ensures
        lists(g, i, p) <==> exists|k: int|
            0 <= k < files.len() && is_image_name((#[trigger] files[k]).file_name@) && group_key(
                files[k],
            ) == key_at(g, i) && files[k].path@ == p,
{
    broadcast use vstd::seq_lib::group_to_multiset_ensures;

    lemma_images_in_contains(files, key_at(g, i), p);
    if i > 0 {
        assert(views(g[i].images@).to_multiset() == images_in(files, Some(g[i].name@)).to_multiset());
    }
    assert(views(g[i].images@).contains(p) <==> views(g[i].images@).to_multiset().count(p) > 0);
    assert(images_in(files, key_at(g, i)).contains(p) <==> images_in(files, key_at(g, i)).to_multiset().count(p) > 0);
}

/// An image file is listed by exactly one group of the result; a file that is
/// not an image is listed by none.
pub proof fn lemma_each_image_in_one_group(
    root: ScanRoot,
    files: Seq<ScannedFile>,
    g: Seq<FolderImages>,
    k: int,
)
    requires
        is_grouping(root, files, g),
        distinct_paths(files),
        0 <= k < files.len(),
    ensures
        is_image_name(files[k].file_name@) ==> exists|i: int|
            0 <= i < g.len() && lists(g, i, files[k].path@) && forall|j: int|
                0 <= j < g.len() && #[trigger] lists(g, j, files[k].path@) ==> j == i,
        !is_image_name(files[k].file_name@) ==> forall|i: int|
            0 <= i < g.len() ==> !#[trigger] lists(g, i, files[k].path@),
{
    let p = files[k].path@;
    assert forall|i: int| 0 <= i < g.len() && #[trigger] lists(g, i, p) implies is_image_name(
        files[k].file_name@,
    ) && key_at(g, i) == group_key(files[k]) by {
        lemma_lists(root, files, g, i, p);
        let k2 = choose|k2: int|
            0 <= k2 < files.len() && is_image_name((#[trigger] files[k2]).file_name@) && group_key(
                files[k2],
            ) == key_at(g, i) && files[k2].path@ == p;
        if k2 < k {
            assert(files[k2].path@ != files[k].path@);
        } else if k2 > k {
            assert(files[k].path@ != files[k2].path@);
        }
    }
    if is_image_name(files[k].file_name@) {
        let i = if group_key(files[k]) is None {
            0
        } else {
            choose|i: int| 1 <= i < g.len() && (#[trigger] g[i]).name@ == group_key(files[k])->0
        };
        lemma_lists(root, files, g, i, p);
        assert(lists(g, i, p));
        assert forall|j: int| 0 <= j < g.len() && #[trigger] lists(g, j, p) implies j == i by {
            if j != i && j > 0 && i > 0 {
                if j < i {
                    assert(g[j].name@ != g[i].name@);
                } else {
                    assert(g[i].name@ != g[j].name@);
                }
            }
        }
    }
}

/// Two image files under the same top-level subfolder, however deep below it,
/// are listed by one and the same group.
pub proof fn lemma_same_top_folder_same_group(
    root: ScanRoot,
    files: Seq<ScannedFile>,
    g: Seq<FolderImages>,
    a: int,
    b: int,
)
    requires
        is_grouping(root, files, g),
        0 <= a < files.len(),
        0 <= b < files.len(),
        is_image_name(files[a].file_name@),
        is_image_name(files[b].file_name@),
        files[a].dirs@.len() > 0,
        files[b].dirs@.len() > 0,
        files[a].dirs@[0]@ == files[b].dirs@[0]@,
    ensures
        exists|i: int|
            1 <= i < g.len() && g[i].name@ == files[a].dirs@[0]@ && lists(g, i, files[a].path@)
                && lists(g, i, files[b].path@),
{
    assert(group_key(files[a]) is Some);
    let i = choose|i: int| 1 <= i < g.len() && (#[trigger] g[i]).name@ == group_key(files[a])->0;
    lemma_lists(root, files, g, i, files[a].path@);
    lemma_lists(root, files, g, i, files[b].path@);
}

/// The root group comes first, even when it lists no image, and no other
/// group has the root's path.
pub proof fn lemma_root_group_first(root: ScanRoot, files: Seq<ScannedFile>, g: Seq<FolderImages>)
    requires
        is_grouping(root, files, g),
        names_nonempty(files),
    ensures
        g.len() >= 1,
        g[0].path@ == root.path@,
        forall|i: int| 1 <= i < g.len() ==> (#[trigger] g[i]).path@ != root.path@,
{
    assert forall|i: int| 1 <= i < g.len() implies (#[trigger] g[i]).path@ != root.path@ by {
        crate::group::lemma_images_in_witness(files, Some(g[i].name@));
        let k = choose|k: int|
            0 <= k < files.len() && is_image_name((#[trigger] files[k]).file_name@) && group_key(
                files[k],
            ) == Some(g[i].name@);
        assert(files[k].dirs@[0]@.len() > 0);
        assert(g[i].path@.len() > root.path@.len());
    }
}

proof fn lemma_group_before_transitive(a: Seq<char>, b: Seq<char>, c: Seq<char>)
    requires
        group_before(a, b),
        group_before(b, c),
    ensures
        group_before(a, c),
{
    if lex_lt(lower_of(a), lower_of(b)) && lex_lt(lower_of(b), lower_of(c)) {
        lemma_lex_transitive(lower_of(a), lower_of(b), lower_of(c));
    } else if lower_of(a) == lower_of(b) && lower_of(b) == lower_of(c) {
        lemma_lex_transitive(a, b, c);
    }
}

proof fn lemma_lex_le_transitive(a: Seq<char>, b: Seq<char>, c: Seq<char>)
    requires
        !lex_lt(b, a),
        !lex_lt(c, b),
    ensures
        !lex_lt(c, a),
{
    lemma_lex_total(a, b);
    lemma_lex_total(b, c);
    if a != b && b != c {
        lemma_lex_transitive(a, b, c);
        crate::text::lemma_lex_asymmetric(a, c);
    }
}

proof fn lemma_groups_chain(g: Seq<FolderImages>, a: int, b: int)
    requires
        1 <= a < b < g.len(),
        forall|i: int| 1 <= i < g.len() - 1 ==> group_before((#[trigger] g[i]).name@, g[i + 1].name@),
    ensures
        group_before(g[a].name@, g[b].name@),
    decreases b - a,
{
    if b > a + 1 {
        lemma_groups_chain(g, a, b - 1);
        let q = b - 1;
        assert(group_before(g[q].name@, g[q + 1].name@));
        lemma_group_before_transitive(g[a].name@, g[q].name@, g[b].name@);
    }
}

proof fn lemma_ascending_chain(s: Seq<Seq<char>>, a: int, b: int)
    requires
        0 <= a < b < s.len(),
        ascending(s),
    ensures
        !lex_lt(s[b], s[a]),
    decreases b - a,
{
    if b > a + 1 {
        lemma_ascending_chain(s, a, b - 1);
        let q = b - 1;
        assert(!lex_lt(s[q + 1], s[q]));
        lemma_lex_le_transitive(s[a], s[q], s[b]);
    } else {
        assert(!lex_lt(s[a + 1], s[a]));
    }
}

/// Past the root group, each group comes before every later one: its
/// lower-cased name is no greater than theirs. Within each group, every image
/// path is no greater than those after it.
pub proof fn lemma_groups_ordered(root: ScanRoot, files: Seq<ScannedFile>, g: Seq<FolderImages>)
    requires
        is_grouping(root, files, g),
    ensures
        forall|a: int, b: int|
            1 <= a < b < g.len() ==> group_before((#[trigger] g[a]).name@, (#[trigger] g[b]).name@)
                && !lex_lt(lower_of(g[b].name@), lower_of(g[a].name@)),
        forall|i: int, a: int, b: int|
            0 <= i < g.len() && 0 <= a < b < g[i].images@.len() ==> !lex_lt(
                (#[trigger] g[i].images@[b])@,
                (#[trigger] g[i].images@[a])@,
            ),
{
    assert forall|a: int, b: int| 1 <= a < b < g.len() implies group_before(
        (#[trigger] g[a]).name@,
        (#[trigger] g[b]).name@,
    ) && !lex_lt(lower_of(g[b].name@), lower_of(g[a].name@)) by {
        lemma_groups_chain(g, a, b);
        crate::text::lemma_lex_asymmetric(lower_of(g[a].name@), lower_of(g[b].name@));
    }
    assert forall|i: int, a: int, b: int|
        0 <= i < g.len() && 0 <= a < b < g[i].images@.len() implies !lex_lt(
        (#[trigger] g[i].images@[b])@,
        (#[trigger] g[i].images@[a])@,
    ) by {
        let s = views(g[i].images@);
        lemma_ascending_chain(s, a, b);
    }
}

/// The names of the groups past the root group.
pub open spec fn folder_names(g: Seq<FolderImages>) -> Seq<Seq<char>> {
    g.subrange(1, g.len() as int).map_values(|x: FolderImages| x.name@)
}

proof fn lemma_names_unique(s1: Seq<Seq<char>>, s2: Seq<Seq<char>>)
    requires
        forall|a: int, b: int|
            0 <= a < b < s1.len() ==> group_before(#[trigger] s1[a], #[trigger] s1[b]),
        forall|a: int, b: int|
            0 <= a < b < s2.len() ==> group_before(#[trigger] s2[a], #[trigger] s2[b]),
        forall|x: Seq<char>| s1.contains(x) <==> s2.contains(x),
    ensures
        s1 == s2,
    decreases s1.len(),
{
    if s1.len() == 0 {
        if s2.len() > 0 {
            assert(s2.contains(s2[0]));
        }
        assert(s1 == s2);
    } else if s2.len() == 0 {
        assert(s1.contains(s1[0]));
    } else {
        assert(s1.contains(s1[0]));
        assert(s2.contains(s2[0]));
        if s1[0] != s2[0] {
            let i = choose|i: int| 0 <= i < s1.len() && s1[i] == s2[0];
            let j = choose|j: int| 0 <= j < s2.len() && s2[j] == s1[0];
            assert(group_before(s1[0], s1[i]));
            assert(group_before(s2[0], s2[j]));
            crate::group::lemma_group_before_total(s1[0], s2[0]);
        }
        let t1 = s1.drop_first();
        let t2 = s2.drop_first();
        assert forall|x: Seq<char>| t1.contains(x) <==> t2.contains(x) by {
            if t1.contains(x) {
                let i = choose|i: int| 0 <= i < t1.len() && t1[i] == x;
                assert(s1[i + 1] == x);
                assert(group_before(s1[0], s1[i + 1]));
                assert(s2.contains(x));
                let j = choose|j: int| 0 <= j < s2.len() && s2[j] == x;
                if j == 0 {
                    crate::group::lemma_group_before_total(s1[0], x);
                }
                assert(t2[j - 1] == x);
            }
            if t2.contains(x) {
                let i = choose|i: int| 0 <= i < t2.len() && t2[i] == x;
                assert(s2[i + 1] == x);
                assert(group_before(s2[0], s2[i + 1]));
                assert(s1.contains(x));
                let j = choose|j: int| 0 <= j < s1.len() && s1[j] == x;
                if j == 0 {
                    crate::group::lemma_group_before_total(s2[0], x);
                }
                assert(t1[j - 1] == x);
            }
        }
        assert forall|a: int, b: int| 0 <= a < b < t1.len() implies group_before(
            #[trigger] t1[a],
            #[trigger] t1[b],
        ) by {
            assert(group_before(s1[a + 1], s1[b + 1]));
        }
        assert forall|a: int, b: int| 0 <= a < b < t2.len() implies group_before(
            #[trigger] t2[a],
            #[trigger] t2[b],
        ) by {
            assert(group_before(s2[a + 1], s2[b + 1]));
        }
        lemma_names_unique(t1, t2);
        assert(s1 == seq![s1[0]] + t1);
        assert(s2 == seq![s2[0]] + t2);
    }
}

proof fn lemma_ascending_unique(s1: Seq<Seq<char>>, s2: Seq<Seq<char>>)
    requires
        ascending(s1),
        ascending(s2),
        s1.to_multiset() == s2.to_multiset(),
    ensures
        s1 == s2,
    decreases s1.len(),
{
    broadcast use vstd::seq_lib::group_to_multiset_ensures;

    if s1.len() == 0 || s2.len() == 0 {
        assert(s1.len() == s2.len());
        assert(s1 == s2);
    } else {
        assert(s1.to_multiset().count(s2[0]) > 0);
        assert(s2.to_multiset().count(s1[0]) > 0);
        assert(s1.contains(s2[0]));
        assert(s2.contains(s1[0]));
        let i = choose|i: int| 0 <= i < s1.len() && s1[i] == s2[0];
        let j = choose|j: int| 0 <= j < s2.len() && s2[j] == s1[0];
        if i > 0 {
            lemma_ascending_chain(s1, 0, i);
        }
        if j > 0 {
            lemma_ascending_chain(s2, 0, j);
        }
        lemma_lex_total(s1[0], s2[0]);
        let t1 = s1.drop_first();
        let t2 = s2.drop_first();
        assert(s1.remove(0) == t1);
        assert(s2.remove(0) == t2);
        assert(ascending(t1)) by {
            assert forall|k: int| 0 <= k < t1.len() - 1 implies !lex_lt(
                #[trigger] t1[k + 1],
                t1[k],
            ) by {
                assert(!lex_lt(s1[(k + 1) + 1], s1[k + 1]));
            }
        }
        assert(ascending(t2)) by {
            assert forall|k: int| 0 <= k < t2.len() - 1 implies !lex_lt(
                #[trigger] t2[k + 1],
                t2[k],
            ) by {
                assert(!lex_lt(s2[(k + 1) + 1], s2[k + 1]));
            }
        }
        lemma_ascending_unique(t1, t2);
        assert(s1 == seq![s1[0]] + t1);
        assert(s2 == seq![s2[0]] + t2);
    }
}

proof fn lemma_folder_names(root: ScanRoot, files: Seq<ScannedFile>, g: Seq<FolderImages>)
    requires
        is_grouping(root, files, g),
    ensures
        folder_names(g).len() == g.len() - 1,
        forall|i: int| 1 <= i < g.len() ==> folder_names(g)[i - 1] == (#[trigger] g[i]).name@,
        forall|a: int, b: int|
            0 <= a < b < folder_names(g).len() ==> group_before(
                #[trigger] folder_names(g)[a],
                #[trigger] folder_names(g)[b],
            ),
        forall|x: Seq<char>|
            folder_names(g).contains(x) <==> images_in(files, Some(x)).len() > 0,
{
    let n = folder_names(g);
    lemma_groups_ordered(root, files, g);
    assert forall|a: int, b: int| 0 <= a < b < n.len() implies group_before(
        #[trigger] n[a],
        #[trigger] n[b],
    ) by {
        assert(group_before(g[a + 1].name@, g[b + 1].name@));
    }
    assert forall|x: Seq<char>| n.contains(x) <==> images_in(files, Some(x)).len() > 0 by {
        if n.contains(x) {
            let i = choose|i: int| 0 <= i < n.len() && n[i] == x;
            assert(g[i + 1].name@ == x);
        }
        if images_in(files, Some(x)).len() > 0 {
            crate::group::lemma_images_in_witness(files, Some(x));
            let k = choose|k: int|
                0 <= k < files.len() && is_image_name((#[trigger] files[k]).file_name@)
                    && group_key(files[k]) == Some(x);
            let i = choose|i: int| 1 <= i < g.len() && (#[trigger] g[i]).name@ == group_key(files[k])->0;
            assert(n[i - 1] == x);
        }
    }
}

/// A scan's result is a function of the root and the files found: two results
/// for the same input are equal, group for group and image for image, so a scan
/// repeated over an unchanged tree gives the same output.
pub proof fn lemma_grouping_unique(
    root: ScanRoot,
    files: Seq<ScannedFile>,
    g1: Seq<FolderImages>,
    g2: Seq<FolderImages>,
)
    requires
        is_grouping(root, files, g1),
        is_grouping(root, files, g2),
    ensures
        g1.len() == g2.len(),
        forall|i: int|
            0 <= i < g1.len() ==> (#[trigger] g1[i]).name@ == g2[i].name@ && g1[i].path@
                == g2[i].path@ && views(g1[i].images@) == views(g2[i].images@),
{
    lemma_folder_names(root, files, g1);
    lemma_folder_names(root, files, g2);
    lemma_names_unique(folder_names(g1), folder_names(g2));
    assert forall|i: int| 0 <= i < g1.len() implies (#[trigger] g1[i]).name@ == g2[i].name@
        && g1[i].path@ == g2[i].path@ && views(g1[i].images@) == views(g2[i].images@) by {
        if i > 0 {
            assert(folder_names(g1)[i - 1] == folder_names(g2)[i - 1]);
        }
        lemma_ascending_unique(views(g1[i].images@), views(g2[i].images@));
    }
}

} // verus!
