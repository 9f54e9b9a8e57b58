//! Path arithmetic on normalized path strings: parent directory, base name,
//! and depth (component count), plus the deepest-first ordering the
//! aggregator depends on.
//!
//! A path is a string whose components are separated by `/`; scanned paths
//! are expected to be normalized (no trailing slash except for the root
//! `/` itself), which is what a filesystem traversal hands over.

use vstd::prelude::*;
use vstd::string::StrSliceExecFns;

verus! {

/// Index of the last `/` in a path, or -1 when there is none.
pub open spec fn last_slash(p: Seq<char>) -> int
    decreases p.len(),
{
    if p.len() == 0 {
        -1
    } else if p.last() == '/' {
        p.len() - 1
    } else {
        last_slash(p.drop_last())
    }
}

/// The parent directory of a path: everything before the last `/`, the root
/// `/` when the last slash is leading, and the empty string for a bare
/// relative name.
pub open spec fn parent_of(p: Seq<char>) -> Seq<char> {
    let i = last_slash(p);
    if i < 0 {
        Seq::empty()
    } else if i == 0 {
        seq!['/']
    } else {
        p.subrange(0, i)
    }
}

/// The base name of a path: everything after the last `/`, or the whole
/// path when there is none.
pub open spec fn base_name(p: Seq<char>) -> Seq<char> {
    p.subrange(last_slash(p) + 1, p.len() as int)
}

/// Number of `/` characters in a path.
pub open spec fn count_slashes(p: Seq<char>) -> int
    decreases p.len(),
{
    if p.len() == 0 {
        0
    } else {
        count_slashes(p.drop_last()) + if p.last() == '/' {
            1int
        } else {
            0int
        }
    }
}

/// Depth of a normalized path, as its number of components: the root `/`
/// has depth 1, `/a` depth 2, `a/b` depth 2. A strict descendant is always
/// strictly deeper than its ancestor.
pub open spec fn depth_of(p: Seq<char>) -> int {
    count_slashes(p) + if p == seq!['/'] {
        0int
    } else {
        1int
    }
}

/// The last slash is inside the path, and every later character differs
/// from `/`.
pub proof fn lemma_last_slash(p: Seq<char>)
    ensures
        -1 <= last_slash(p) < p.len(),
        last_slash(p) >= 0 ==> p[last_slash(p)] == '/',
        forall|k: int| last_slash(p) < k < p.len() ==> p[k] != '/',
    decreases p.len(),
{
    if p.len() > 0 && p.last() != '/' {
        lemma_last_slash(p.drop_last());
        assert forall|k: int| last_slash(p) < k < p.len() implies p[k] != '/' by {
            if k < p.len() - 1 {
                assert(p.drop_last()[k] == p[k]);
            }
        }
        if last_slash(p) >= 0 {
            assert(p.drop_last()[last_slash(p)] == p[last_slash(p)]);
        }
    }
}

/// Finds the index of the last `/`, if any.
fn find_last_slash(p: &str) -> (r: Option<usize>)
    ensures
        match r {
            Some(i) => i as int == last_slash(p@),
            None => last_slash(p@) == -1,
        },
{
    let n = p.unicode_len();
    proof {
        assert(p@.subrange(0, n as int) =~= p@);
    }
    let mut j = n;
    while j > 0
        invariant
            j <= n,
            n == p@.len(),
            last_slash(p@) == last_slash(p@.subrange(0, j as int)),
        decreases j,
    {
        let c = p.get_char(j - 1);
        proof {
            let cur = p@.subrange(0, j as int);
            let pre = p@.subrange(0, j - 1 as int);
            assert(cur.drop_last() =~= pre);
            assert(cur.last() == p@[j - 1]);
        }
        if c == '/' {
            return Some(j - 1);
        }
        j = j - 1;
    }
    proof {
        assert(p@.subrange(0, 0) =~= Seq::<char>::empty());
    }
    None
}

/// The parent directory of a normalized path, as `parent_of` describes it.
pub fn parent_dir(p: &str) -> (r: String)
    ensures
        r@ == parent_of(p@),
{
    match find_last_slash(p) {
        None => String::new(),
        Some(i) => {
            if i == 0 {
                proof {
                    lemma_last_slash(p@);
                    assert(p@.subrange(0, 1) =~= seq!['/']);
                }
                p.substring_char(0, 1).to_owned()
            } else {
                proof {
                    lemma_last_slash(p@);
                }
                p.substring_char(0, i).to_owned()
            }
        },
    }
}

/// The base name of a path, as `base_name` describes it.
pub fn base_name_of(p: &str) -> (r: String)
    ensures
        r@ == base_name(p@),
{
    match find_last_slash(p) {
        None => {
            proof {
                assert(p@.subrange(0, p@.len() as int) =~= p@);
            }
            p.to_owned()
        },
        Some(i) => {
            proof {
                lemma_last_slash(p@);
            }
            let n = p.unicode_len();
            p.substring_char(i + 1, n).to_owned()
        },
    }
}

/// The depth of a path; `u128` so that the component count of any string
/// that fits in memory is representable.
pub fn depth(p: &str) -> (r: u128)
    ensures
        r as int == depth_of(p@),
{
    let n = p.unicode_len();
    let mut count: u128 = 0;
    let mut i: usize = 0;
    while i < n
        invariant
            i <= n,
            n == p@.len(),
            count as int == count_slashes(p@.subrange(0, i as int)),
            count <= i,
        decreases n - i,
    {
        let c = p.get_char(i);
        proof {
            let cur = p@.subrange(0, i + 1 as int);
            assert(cur.drop_last() =~= p@.subrange(0, i as int));
            assert(cur.last() == p@[i as int]);
        }
        if c == '/' {
            count = count + 1;
        }
        i = i + 1;
    }
    proof {
        assert(p@.subrange(0, p@.len() as int) =~= p@);
    }
    let is_root = n == 1 && p.get_char(0) == '/';
    proof {
        if is_root {
            assert(p@ =~= seq!['/']);
        } else {
            assert(p@ != seq!['/']) by {
                if p@ == seq!['/'] {
                    assert(p@.len() == 1 && p@[0] == '/');
                }
            }
        }
    }
    if is_root {
        count
    } else {
        count + 1
    }
}

/// Position at which a path of depth `dx` is inserted to keep a
/// depth-descending sequence depth-descending: after every element at least
/// as deep.
fn dir_insert_pos(out: &Vec<String>, dx: u128) -> (j: usize)
    ensures
        j <= out.deep_view().len(),
        forall|k: int| 0 <= k < j ==> depth_of(out.deep_view()[k]) >= dx as int,
        j < out.deep_view().len() ==> depth_of(out.deep_view()[j as int]) < dx as int,
{
    let mut j: usize = 0;
    while j < out.len()
        invariant
            j <= out.deep_view().len(),
            out.deep_view().len() == out@.len(),
            forall|k: int| 0 <= k < j ==> depth_of(out.deep_view()[k]) >= dx as int,
        decreases out.len() - j,
    {
        if depth(out[j].as_str()) < dx {
            return j;
        }
        j = j + 1;
    }
    j
}

/// Reorders directory paths so that deeper directories come first: every
/// directory is aggregated only after all of its descendants. The result is
/// a permutation of the input, sorted by descending depth.
pub fn sort_dirs_by_depth(dirs: &Vec<String>) -> (r: Vec<String>)
    ensures
        r.deep_view().to_multiset() == dirs.deep_view().to_multiset(),
        forall|i: int, j: int|
            0 <= i < j < r.deep_view().len() ==> depth_of(r.deep_view()[i]) >= depth_of(
                r.deep_view()[j],
            ),
{
    let ghost input = dirs.deep_view();
    let mut out: Vec<String> = Vec::new();
    proof {
        assert(out.deep_view() =~= input.subrange(0, 0));
    }
    let mut i: usize = 0;
    while i < dirs.len()
        invariant
            i <= dirs.len(),
            input == dirs.deep_view(),
            input.len() == dirs@.len(),
            out.deep_view().to_multiset() == input.subrange(0, i as int).to_multiset(),
            forall|a: int, b: int|
                0 <= a < b < out.deep_view().len() ==> depth_of(out.deep_view()[a]) >= depth_of(
                    out.deep_view()[b],
                ),
        decreases dirs.len() - i,
    {
        let x = dirs[i].clone();
        let dx = depth(x.as_str());
        let j = dir_insert_pos(&out, dx);
        let ghost old_out = out.deep_view();
        out.insert(j, x);
        proof {
            let newv = out.deep_view();
            assert(newv =~= old_out.insert(j as int, x@));
            crate::seqs::lemma_insert_to_multiset(old_out, j as int, x@);
            crate::seqs::lemma_push_to_multiset(input.subrange(0, i as int), input[i as int]);
            assert(input.subrange(0, i + 1 as int) =~= input.subrange(0, i as int).push(
                input[i as int],
            ));
            assert(x@ == input[i as int]);
            assert(newv.to_multiset() =~= input.subrange(0, i + 1 as int).to_multiset());
            assert forall|a: int, b: int| 0 <= a < b < newv.len() implies depth_of(newv[a])
                >= depth_of(newv[b]) by {
                assert(forall|k: int| 0 <= k < j ==> newv[k] == old_out[k]);
                assert(newv[j as int] == x@);
                assert(forall|k: int| j < k < newv.len() ==> newv[k] == old_out[k - 1]);
                if b > j {
                    assert(depth_of(old_out[j as int]) < dx as int);
                }
            }
        }
        i = i + 1;
    }
    proof {
        assert(input.subrange(0, input.len() as int) =~= input);
    }
    out
}

/// Slash count distributes over concatenation.
proof fn lemma_count_slashes_add(a: Seq<char>, b: Seq<char>)
    ensures
        count_slashes(a + b) == count_slashes(a) + count_slashes(b),
    decreases b.len(),
{
    if b.len() == 0 {
        assert(a + b =~= a);
    } else {
        lemma_count_slashes_add(a, b.drop_last());
        assert((a + b).drop_last() =~= a + b.drop_last());
        assert((a + b).last() == b.last());
    }
}

/// A path's one slash followed only by non-slashes is its last slash.
proof fn lemma_last_slash_at(p: Seq<char>, i: int)
    requires
        0 <= i < p.len(),
        p[i] == '/',
        forall|k: int| i < k < p.len() ==> p[k] != '/',
    ensures
        last_slash(p) == i,
{
    lemma_last_slash(p);
    if last_slash(p) < i {
        assert(p[i] == '/');
    }
    if last_slash(p) > i {
        assert(p[last_slash(p)] != '/');
    }
}

/// Joining a directory path with the name of an entry in it — the name
/// nonempty and without slashes, the parent normalized — makes a path whose
/// parent and base name are the two parts again, one level deeper than the
/// parent: every directory is aggregated strictly after its children when
/// paths are visited in descending depth order.
pub proof fn lemma_path_join(parent: Seq<char>, name: Seq<char>)
    requires
        parent.len() > 0,
        parent.last() != '/',
        name.len() > 0,
        forall|k: int| 0 <= k < name.len() ==> name[k] != '/',
    ensures
        parent_of(parent + seq!['/'] + name) == parent,
        base_name(parent + seq!['/'] + name) == name,
        depth_of(parent + seq!['/'] + name) == depth_of(parent) + 1,
{
    let child = parent + seq!['/'] + name;
    let i = parent.len() as int;
    assert(child[i] == '/');
    assert(forall|k: int| i < k < child.len() ==> child[k] == name[k - i - 1]);
    lemma_last_slash_at(child, i);
    assert(child.subrange(0, i) =~= parent);
    assert(child.subrange(i + 1, child.len() as int) =~= name);
    lemma_count_slashes_add(parent + seq!['/'], name);
    lemma_count_slashes_add(parent, seq!['/']);
    assert(count_slashes(seq!['/']) == 1) by {
        assert(seq!['/'].drop_last() =~= Seq::<char>::empty());
        assert(seq!['/'].last() == '/');
        assert(count_slashes(Seq::<char>::empty()) == 0);
    }
    assert(count_slashes(name) == 0) by {
        lemma_no_slash_count(name);
    }
    assert(child != seq!['/']);
    assert(parent != seq!['/']) by {
        assert(parent.last() != '/');
    }
}

/// A sequence without slashes counts zero slashes.
proof fn lemma_no_slash_count(s: Seq<char>)
    requires
        forall|k: int| 0 <= k < s.len() ==> s[k] != '/',
    ensures
        count_slashes(s) == 0,
    decreases s.len(),
{
    if s.len() > 0 {
        lemma_no_slash_count(s.drop_last());
    }
}

} // verus!
