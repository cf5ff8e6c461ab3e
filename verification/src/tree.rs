//! The tree of the installed files: it tells which directories a file
//! needs that do not exist yet, and gives the `ls-R` index of kpathsea.
use vstd::prelude::*;
use vstd::string::*;
use vstd::utf8::*;
use vstd::relations::*;
use crate::order::{dedup, insert_pos, lemma_insert_pos, lemma_insert_sorted, lemma_is_sorted_names, lex_le, lex_order, sorted_names};
use crate::pipeline::strings_view;
use crate::text::{push_bytes, str_eq};

verus! {

broadcast use vstd::utf8::encode_utf8_valid_utf8, vstd::utf8::encode_utf8_decode_utf8,
    vstd::seq_lib::group_to_multiset_ensures;

/// A directory of the tree: its subdirectories, each with its name, and the
/// names of its files in the order in which they were added. The
/// subdirectories stand in a vector of pairs, looked up by name; the
/// operations that add directories keep the names of the subdirectories of
/// each directory distinct (`distinct_dirs`), as keys of a map would be.
#[derive(Debug)]
pub struct Node {
    pub dirs: Vec<(String, Node)>,
    pub files: Vec<String>,
}

/// The position of the first subdirectory named `name`, or the number of
/// subdirectories when there is none.
pub open spec fn first_named(d: Seq<(String, Node)>, name: Seq<char>) -> int
    decreases d.len(),
{
    if d.len() == 0 {
        0
    } else if d[0].0@ == name {
        0
    } else {
        1 + first_named(d.drop_first(), name)
    }
}

/// No two subdirectories of any directory of the tree `n` share a name.
pub open spec fn distinct_dirs(n: Node) -> bool
    decreases n, 1int, 0int,
{
    &&& forall|i: int, j: int| 0 <= i < j < n.dirs@.len() ==> #[trigger] n.dirs@[i].0@ != #[trigger] n.dirs@[j].0@
    &&& distinct_children(n, n.dirs@.len() as int)
}

/// Each of the first `k` subdirectories of `n` satisfies `distinct_dirs`.
pub open spec fn distinct_children(n: Node, k: int) -> bool
    decreases n, 0int, k,
{
    if k <= 0 || k > n.dirs@.len() {
        true
    } else {
        distinct_children(n, k - 1) && distinct_dirs(n.dirs@[k - 1].1)
    }
}

proof fn lemma_distinct_children(n: Node, k: int)
    requires
        0 <= k <= n.dirs@.len(),
    ensures
        distinct_children(n, k) <==> forall|i: int| 0 <= i < k ==> #[trigger] distinct_dirs(n.dirs@[i].1),
    decreases k,
{
    if k > 0 {
        lemma_distinct_children(n, k - 1);
        assert(distinct_children(n, k) == (distinct_children(n, k - 1) && distinct_dirs(n.dirs@[k - 1].1)));
        if forall|i: int| 0 <= i < k ==> #[trigger] distinct_dirs(n.dirs@[i].1) {
            assert forall|i: int| 0 <= i < k - 1 implies #[trigger] distinct_dirs(n.dirs@[i].1) by {}
            assert(distinct_dirs(n.dirs@[k - 1].1));
        }
        if distinct_children(n, k) {
            assert forall|i: int| 0 <= i < k implies #[trigger] distinct_dirs(n.dirs@[i].1) by {
                if i < k - 1 {
                } else {
                    assert(i == k - 1);
                }
            }
        }
    }
}

/// `distinct_dirs` of a directory: its subdirectory names are distinct and
/// each subdirectory satisfies it.
proof fn lemma_distinct_dirs(n: Node)
    ensures
        distinct_dirs(n) <==> (forall|i: int, j: int| 0 <= i < j < n.dirs@.len() ==> #[trigger] n.dirs@[i].0@
            != #[trigger] n.dirs@[j].0@) && (forall|i: int| 0 <= i < n.dirs@.len() ==> #[trigger] distinct_dirs(
            n.dirs@[i].1,
        )),
{
    lemma_distinct_children(n, n.dirs@.len() as int);
}

/// The subdirectory named `name` of `n`, if it has one.
pub open spec fn subdir(n: Node, name: Seq<char>) -> Option<Node> {
    let i = first_named(n.dirs@, name);
    if i < n.dirs@.len() {
        Some(n.dirs@[i].1)
    } else {
        None
    }
}

/// True when the tree `n` holds the directory at the relative path `p` (the
/// list of its components); the empty path is `n` itself.
pub open spec fn has_dir(n: Node, p: Seq<Seq<char>>) -> bool
    decreases p.len(),
{
    if p.len() == 0 {
        true
    } else {
        match subdir(n, p[0]) {
            Some(c) => has_dir(c, p.drop_first()),
            None => false,
        }
    }
}

/// The files of the directory at path `p` of the tree `n`, in the order in
/// which they were added; none when there is no such directory.
pub open spec fn files_at(n: Node, p: Seq<Seq<char>>) -> Seq<Seq<char>>
    decreases p.len(),
{
    if p.len() == 0 {
        strings_view(n.files@)
    } else {
        match subdir(n, p[0]) {
            Some(c) => files_at(c, p.drop_first()),
            None => seq![],
        }
    }
}

/// The number of leading components of `p` whose directories the tree
/// `n` holds.
pub open spec fn depth_present(n: Node, p: Seq<Seq<char>>) -> nat
    decreases p.len(),
{
    if p.len() == 0 {
        0
    } else {
        match subdir(n, p[0]) {
            Some(c) => 1 + depth_present(c, p.drop_first()),
            None => 0,
        }
    }
}

proof fn lemma_depth_bound(n: Node, p: Seq<Seq<char>>)
    ensures
        depth_present(n, p) <= p.len(),
    decreases p.len(),
{
    if p.len() > 0 {
        match subdir(n, p[0]) {
            Some(c) => lemma_depth_bound(c, p.drop_first()),
            None => {},
        }
    }
}

/// The directories on the path `p` that the tree `n` does not hold, from
/// the outermost: the prefixes of `p` past the ones that it holds.
pub open spec fn missing_dirs(n: Node, p: Seq<Seq<char>>) -> Seq<Seq<Seq<char>>> {
    let m = depth_present(n, p);
    Seq::new((p.len() - m) as nat, |j: int| p.take(m + 1 + j))
}

/// The path of the directory of the file at path `p` (`Path::parent`):
/// none for the empty path and for the root alone.
pub open spec fn parent_of(p: Seq<Seq<char>>) -> Option<Seq<Seq<char>>> {
    if p.len() == 0 || (p.len() == 1 && p[0] == "/"@) {
        None
    } else {
        Some(p.drop_last())
    }
}

/// The name of the file at path `p` (`Path::file_name`): its last
/// component, unless that is the root, `.` or `..`.
pub open spec fn file_name_of(p: Seq<Seq<char>>) -> Option<Seq<char>> {
    if p.len() == 0 || p.last() == "/"@ || p.last() == "."@ || p.last() == ".."@ {
        None
    } else {
        Some(p.last())
    }
}

/// True when `p` is a prefix of `q`.
pub open spec fn is_prefix(p: Seq<Seq<char>>, q: Seq<Seq<char>>) -> bool {
    p.len() <= q.len() && q.take(p.len() as int) == p
}

/// The lists of components of a list of paths.
pub open spec fn paths_view(v: Seq<Vec<String>>) -> Seq<Seq<Seq<char>>> {
    v.map_values(|p: Vec<String>| strings_view(p@))
}

/// The names of the subdirectories.
pub open spec fn dir_names(d: Seq<(String, Node)>) -> Seq<Seq<char>> {
    d.map_values(|e: (String, Node)| e.0@)
}

proof fn lemma_first_named_names(d1: Seq<(String, Node)>, d2: Seq<(String, Node)>, name: Seq<char>)
    requires
        dir_names(d1) == dir_names(d2),
    ensures
        first_named(d1, name) == first_named(d2, name),
    decreases d1.len(),
{
    assert(d1.len() == dir_names(d1).len() && d2.len() == dir_names(d2).len());
    if d1.len() > 0 {
        assert(d1[0].0@ == dir_names(d1)[0] && d2[0].0@ == dir_names(d2)[0]);
        assert(dir_names(d1.drop_first()) =~= dir_names(d1).drop_first());
        assert(dir_names(d2.drop_first()) =~= dir_names(d2).drop_first());
        lemma_first_named_names(d1.drop_first(), d2.drop_first(), name);
    }
}

proof fn lemma_first_named_bounds(d: Seq<(String, Node)>, name: Seq<char>)
    ensures
        0 <= first_named(d, name) <= d.len(),
        first_named(d, name) < d.len() ==> d[first_named(d, name)].0@ == name,
        forall|j: int| 0 <= j < first_named(d, name) ==> #[trigger] d[j].0@ != name,
    decreases d.len(),
{
    if d.len() > 0 && d[0].0@ != name {
        lemma_first_named_bounds(d.drop_first(), name);
        assert forall|j: int| 0 <= j < first_named(d, name) implies #[trigger] d[j].0@ != name by {
            if j > 0 {
                assert(d[j] == d.drop_first()[j - 1]);
            }
        }
    }
}

proof fn lemma_first_named_push(d: Seq<(String, Node)>, x: (String, Node), name: Seq<char>)
    ensures
        first_named(d, name) < d.len() ==> first_named(d.push(x), name) == first_named(d, name),
        first_named(d, name) == d.len() && x.0@ == name ==> first_named(d.push(x), name) == d.len(),
        first_named(d, name) == d.len() && x.0@ != name ==> first_named(d.push(x), name) == d.len() + 1,
    decreases d.len(),
{
    if d.len() > 0 {
        assert(d.push(x)[0] == d[0]);
        assert(d.push(x).drop_first() =~= d.drop_first().push(x));
        lemma_first_named_push(d.drop_first(), x, name);
    } else {
        assert(d.push(x)[0] == x);
        assert(d.push(x).drop_first() =~= Seq::<(String, Node)>::empty());
        assert(first_named(Seq::<(String, Node)>::empty(), name) == 0);
    }
}

/// An empty directory.
pub open spec fn empty_node(n: Node) -> bool {
    n.dirs@.len() == 0 && n.files@.len() == 0
}

proof fn lemma_empty_node(n: Node, p: Seq<Seq<char>>)
    requires
        empty_node(n),
    ensures
        has_dir(n, p) <==> p.len() == 0,
        files_at(n, p) == Seq::<Seq<char>>::empty(),
        depth_present(n, p) == 0,
{
    if p.len() == 0 {
        assert(strings_view(n.files@) =~= Seq::<Seq<char>>::empty());
    }
}

impl Default for Node {
    /// An empty directory.
    fn default() -> (r: Node)
        ensures
            empty_node(r),
            distinct_dirs(r),
    {
        let r = Node { dirs: Vec::new(), files: Vec::new() };
        proof {
            lemma_distinct_dirs(r);
        }
        r
    }
}

impl Node {
    /// The position of the subdirectory named `name`, or the number of
    /// subdirectories.
    fn find_dir(&self, name: &str) -> (r: usize)
        ensures
            r == first_named(self.dirs@, name@),
    {
        let mut i: usize = 0;
        assert(self.dirs@.skip(0) =~= self.dirs@);
        while i < self.dirs.len()
            invariant
                i <= self.dirs@.len(),
                first_named(self.dirs@, name@) == i + first_named(self.dirs@.skip(i as int), name@),
            decreases self.dirs@.len() - i,
        {
            if str_eq(self.dirs[i].0.as_str(), name) {
                assert(self.dirs@.skip(i as int)[0] == self.dirs@[i as int]);
                return i;
            }
            assert(self.dirs@.skip(i as int).drop_first() =~= self.dirs@.skip(i + 1));
            i = i + 1;
        }
        i
    }

    /// The subdirectory named `name`, if there is one.
    pub fn child(&self, name: &str) -> (r: Option<&Node>)
        ensures
            match subdir(*self, name@) {
                Some(c) => r matches Some(x) && *x == c,
                None => r is None,
            },
    {
        let k = self.find_dir(name);
        if k < self.dirs.len() {
            Some(&self.dirs[k].1)
        } else {
            None
        }
    }

    /// Adds the directories of `path[i..]` under this one, which stands at
    /// `prefix`, and appends to `created` each one that it adds.
    fn insert_dirs_from(&mut self, path: &[String], i: usize, prefix: Vec<String>, created: &mut Vec<Vec<String>>)
        requires
            i <= path@.len(),
            strings_view(prefix@) == strings_view(path@).take(i as int),
        ensures
            forall|p: Seq<Seq<char>>|
                #[trigger] has_dir(*final(self), p) <==> has_dir(*old(self), p) || is_prefix(
                    p,
                    strings_view(path@).skip(i as int),
                ),
            forall|p: Seq<Seq<char>>| #[trigger] files_at(*final(self), p) == files_at(*old(self), p),
            paths_view(final(created)@) == paths_view(old(created)@) + missing_dirs(
                *old(self),
                strings_view(path@).skip(i as int),
            ).map_values(|q: Seq<Seq<char>>| strings_view(path@).take(i as int) + q),
            distinct_dirs(*old(self)) ==> distinct_dirs(*final(self)),
        decreases path@.len() - i,
    {
        let ghost sp = strings_view(path@);
        let ghost rest = sp.skip(i as int);
        let ghost old_self = *self;
        if i == path.len() {
            proof {
                assert forall|p: Seq<Seq<char>>| #[trigger] has_dir(*self, p) <==> has_dir(old_self, p)
                    || is_prefix(p, rest) by {
                    if is_prefix(p, rest) {
                        assert(p.len() == 0);
                    }
                }
                assert(missing_dirs(old_self, rest).map_values(|q: Seq<Seq<char>>| sp.take(i as int) + q)
                    =~= Seq::<Seq<Seq<char>>>::empty());
                assert(paths_view(created@) =~= paths_view(created@) + Seq::<Seq<Seq<char>>>::empty());
            }
            return ;
        }
        let name = &path[i];
        assert(sp[i as int] == name@);
        assert(rest[0] == name@);
        let mut k = self.find_dir(name.as_str());
        let mut next_prefix = prefix;
        let ghost pv = next_prefix@;
        let c = name.clone();
        assert(c@ == name@);
        next_prefix.push(c);
        assert(next_prefix@ == pv.push(c));
        assert(strings_view(next_prefix@) =~= strings_view(pv).push(name@));
        assert(sp.take(i + 1) =~= sp.take(i as int).push(sp[i as int]));
        assert(strings_view(next_prefix@) =~= sp.take(i + 1));
        let is_new = k == self.dirs.len();
        proof {
            lemma_first_named_bounds(self.dirs@, name@);
        }
        if is_new {
            let ghost before = paths_view(created@);
            created.push(next_prefix.clone());
            proof {
                assert(paths_view(created@) =~= before.push(strings_view(next_prefix@)));
            }
            let ghost d0 = self.dirs@;
            let fresh = Node::default();
            self.dirs.push((name.clone(), fresh));
            proof {
                lemma_first_named_push(d0, self.dirs@[k as int], name@);
                assert(self.dirs@ == d0.push(self.dirs@[k as int]));
                assert(distinct_dirs(self.dirs@[k as int].1));
            }
        }
        let ghost mid = *self;
        let ghost mid_created = paths_view(created@);
        let (nm, mut sub) = self.dirs.remove(k);
        let ghost sub0 = sub;
        sub.insert_dirs_from(path, i + 1, next_prefix, created);
        self.dirs.insert(k, (nm, sub));
        proof {
            let d_mid = mid.dirs@;
            let d_new = self.dirs@;
            assert(d_new =~= d_mid.update(k as int, (nm, sub)));
            assert(dir_names(d_new) =~= dir_names(d_mid));
            lemma_distinct_dirs(old_self);
            lemma_distinct_dirs(mid);
            lemma_distinct_dirs(*self);
            if distinct_dirs(old_self) {
                let d0 = old_self.dirs@;
                assert forall|a: int, b: int| 0 <= a < b < d_mid.len() implies #[trigger] d_mid[a].0@
                    != #[trigger] d_mid[b].0@ by {
                    if is_new && b == d0.len() {
                        assert(d_mid[a] == d0[a]);
                    } else {
                        assert(d_mid[a] == d0[a] && d_mid[b] == d0[b]);
                    }
                }
                assert forall|a: int| 0 <= a < d_mid.len() implies #[trigger] distinct_dirs(d_mid[a].1) by {
                    if is_new && a == d0.len() {
                        assert(d_mid[a] == mid.dirs@[k as int]);
                    } else {
                        assert(d_mid[a] == d0[a]);
                    }
                }
                assert(distinct_dirs(sub0));
                assert forall|a: int, b: int| 0 <= a < b < d_new.len() implies #[trigger] d_new[a].0@
                    != #[trigger] d_new[b].0@ by {
                    assert(d_new[a].0@ == dir_names(d_new)[a] && d_mid[a].0@ == dir_names(d_mid)[a]);
                    assert(d_new[b].0@ == dir_names(d_new)[b] && d_mid[b].0@ == dir_names(d_mid)[b]);
                }
                assert forall|a: int| 0 <= a < d_new.len() implies #[trigger] distinct_dirs(d_new[a].1) by {
                    if a != k {
                        assert(d_new[a] == d_mid[a]);
                    }
                }
            }
            assert(d_mid[k as int] == (nm, sub0));
            assert(first_named(d_mid, name@) == k);
            // the tree before the descent, and the subdirectory it descends to
            assert(is_new ==> empty_node(sub0));
            assert(!is_new ==> sub0 == old_self.dirs@[k as int].1);
            assert forall|nm2: Seq<char>| #[trigger] first_named(d_new, nm2) == first_named(d_mid, nm2) by {
                lemma_first_named_names(d_new, d_mid, nm2);
            }
            // names other than `name` lead where they led before
            assert forall|nm2: Seq<char>| nm2 != name@ implies #[trigger] subdir(*self, nm2) == subdir(old_self, nm2) by {
                lemma_first_named_bounds(d_mid, nm2);
                lemma_first_named_bounds(old_self.dirs@, nm2);
                if is_new {
                    lemma_first_named_push(old_self.dirs@, d_mid[k as int], nm2);
                }
            }
            assert(subdir(*self, name@) == Some(sub));
            assert(is_new ==> subdir(old_self, name@) is None);
            assert(!is_new ==> subdir(old_self, name@) == Some(sub0));
            assert(rest.drop_first() =~= sp.skip(i + 1));
            assert forall|p: Seq<Seq<char>>| #[trigger] has_dir(*self, p) <==> has_dir(old_self, p)
                || is_prefix(p, rest) by {
                if p.len() > 0 {
                    if p[0] == name@ {
                        assert(has_dir(*self, p) == has_dir(sub, p.drop_first()));
                        if p.len() == 1 {
                            assert(rest.drop_first().take(0) =~= p.drop_first());
                            assert(sp.skip(i + 1).take(0) =~= p.drop_first());
                        }
                        if is_new {
                            lemma_empty_node(sub0, p.drop_first());
                            assert(!has_dir(old_self, p));
                        } else {
                            assert(has_dir(old_self, p) == has_dir(sub0, p.drop_first()));
                        }
                        assert(has_dir(sub, p.drop_first()) <==> has_dir(sub0, p.drop_first())
                            || is_prefix(p.drop_first(), sp.skip(i + 1)));
                        if is_prefix(p, rest) {
                            assert(p.drop_first() =~= rest.drop_first().take(p.len() - 1));
                        }
                        if is_prefix(p.drop_first(), rest.drop_first()) {
                            assert(rest.take(p.len() as int) =~= seq![rest[0]] + rest.drop_first().take(
                                p.len() - 1,
                            ));
                            assert(p =~= seq![p[0]] + p.drop_first());
                        }
                    } else {
                        assert(subdir(*self, p[0]) == subdir(old_self, p[0]));
                        if p.len() <= rest.len() {
                            assert(rest.take(p.len() as int)[0] == rest[0]);
                        }
                    }
                }
            }
            assert(self.files == old_self.files);
            assert forall|p: Seq<Seq<char>>| #[trigger] files_at(*self, p) == files_at(old_self, p) by {
                if p.len() > 0 && p[0] == name@ {
                    assert(files_at(*self, p) == files_at(sub, p.drop_first()));
                }
                if p.len() > 0 && p[0] != name@ {
                    assert(subdir(*self, p[0]) == subdir(old_self, p[0]));
                }
                if p.len() > 0 && p[0] == name@ && is_new {
                    lemma_empty_node(sub0, p.drop_first());
                }
            }
            // the directories created, from the outermost
            let tail = missing_dirs(sub0, sp.skip(i + 1)).map_values(
                |q: Seq<Seq<char>>| sp.take(i + 1) + q,
            );
            let whole = missing_dirs(old_self, rest).map_values(|q: Seq<Seq<char>>| sp.take(i as int) + q);
            if is_new {
                lemma_empty_node(sub0, sp.skip(i + 1));
                lemma_empty_node(sub0, rest.drop_first());
                assert(depth_present(old_self, rest) == 0);
                assert forall|j: int| 0 <= j < whole.len() implies #[trigger] whole[j] == seq![
                    sp.take(i + 1),
                ].add(tail)[j] by {
                    assert(sp.take(i as int) + rest.take(1 + j) =~= sp.take(i + 1 + j));
                    if j > 0 {
                        assert(sp.take(i + 1) + sp.skip(i + 1).take(j) =~= sp.take(i + 1 + j));
                    }
                }
                assert(whole =~= seq![sp.take(i + 1)] + tail);
                assert(paths_view(created@) =~= paths_view(old(created)@) + whole);
            } else {
                lemma_depth_bound(sub0, sp.skip(i + 1));
                assert(depth_present(old_self, rest) == 1 + depth_present(sub0, sp.skip(i + 1)));
                assert forall|j: int| 0 <= j < whole.len() implies #[trigger] whole[j] == tail[j] by {
                    let m = depth_present(sub0, sp.skip(i + 1));
                    assert(j < rest.len() - (m + 1));
                    assert(sp.take(i as int) + rest.take(m + 2 + j) =~= sp.take(i + m + 2 + j));
                    assert(sp.take(i + 1) + sp.skip(i + 1).take(m + 1 + j) =~= sp.take(i + m + 2 + j));
                }
                assert(whole =~= tail);
            }
        }
    }

    /// Adds the directory at the relative path `rel_path` (its components)
    /// and the ones above it, and gives those that it added, from the
    /// outermost, each as the list of its components.
    pub fn insert_dir(&mut self, rel_path: &[String]) -> (r: Vec<Vec<String>>)
        ensures
            forall|p: Seq<Seq<char>>|
                #[trigger] has_dir(*final(self), p) <==> has_dir(*old(self), p) || is_prefix(
                    p,
                    strings_view(rel_path@),
                ),
            forall|p: Seq<Seq<char>>| #[trigger] files_at(*final(self), p) == files_at(*old(self), p),
            paths_view(r@) == missing_dirs(*old(self), strings_view(rel_path@)),
            distinct_dirs(*old(self)) ==> distinct_dirs(*final(self)),
    {
        let mut created: Vec<Vec<String>> = Vec::new();
        let ghost sp = strings_view(rel_path@);
        let start: Vec<String> = Vec::new();
        assert(strings_view(start@) =~= sp.take(0));
        self.insert_dirs_from(rel_path, 0, start, &mut created);
        proof {
            assert(sp.skip(0) =~= sp);
            let md = missing_dirs(*old(self), sp);
            assert(md.map_values(|q: Seq<Seq<char>>| sp.take(0) + q) =~= md) by {
                assert forall|j: int| 0 <= j < md.len() implies sp.take(0) + md[j] == md[j] by {
                    assert(sp.take(0) + md[j] =~= md[j]);
                }
            }
            assert(paths_view(created@) =~= Seq::<Seq<Seq<char>>>::empty() + md);
        }
        created
    }
}
impl Node {
    /// Adds the file `file` to the directory at `path[i..]` below this one,
    /// which the tree holds.
    fn add_file_at(&mut self, path: &[String], i: usize, file: String)
        requires
            i <= path@.len(),
            has_dir(*old(self), strings_view(path@).skip(i as int)),
        ensures
            forall|p: Seq<Seq<char>>| #[trigger] has_dir(*final(self), p) == has_dir(*old(self), p),
            forall|p: Seq<Seq<char>>|
                #[trigger] files_at(*final(self), p) == if p == strings_view(path@).skip(i as int) {
                    files_at(*old(self), p).push(file@)
                } else {
                    files_at(*old(self), p)
                },
            distinct_dirs(*old(self)) ==> distinct_dirs(*final(self)),
        decreases path@.len() - i,
    {
        let ghost sp = strings_view(path@);
        let ghost rest = sp.skip(i as int);
        let ghost old_self = *self;
        if i == path.len() {
            let ghost fv = self.files@;
            self.files.push(file);
            proof {
                lemma_distinct_dirs(old_self);
                lemma_distinct_dirs(*self);
                assert(self.dirs@ == old_self.dirs@);
                assert(rest.len() == 0);
                assert(strings_view(self.files@) =~= strings_view(fv).push(file@));
                assert forall|p: Seq<Seq<char>>| #[trigger] has_dir(*self, p) == has_dir(old_self, p) by {
                    if p.len() > 0 {
                        assert(subdir(*self, p[0]) == subdir(old_self, p[0]));
                    }
                }
                assert forall|p: Seq<Seq<char>>| #[trigger] files_at(*self, p) == if p == rest {
                    files_at(old_self, p).push(file@)
                } else {
                    files_at(old_self, p)
                } by {
                    if p.len() > 0 {
                        assert(subdir(*self, p[0]) == subdir(old_self, p[0]));
                    } else {
                        assert(p =~= rest);
                    }
                }
            }
            return ;
        }
        let name = &path[i];
        assert(sp[i as int] == name@ && rest[0] == name@);
        let k = self.find_dir(name.as_str());
        proof {
            lemma_first_named_bounds(self.dirs@, name@);
            assert(rest.drop_first() =~= sp.skip(i + 1));
        }
        let ghost d0 = self.dirs@;
        let (nm, mut sub) = self.dirs.remove(k);
        let ghost sub0 = sub;
        assert(sub0 == d0[k as int].1);
        sub.add_file_at(path, i + 1, file);
        self.dirs.insert(k, (nm, sub));
        proof {
            let d_new = self.dirs@;
            assert(d_new =~= d0.update(k as int, (nm, sub)));
            assert(dir_names(d_new) =~= dir_names(d0));
            assert(self.files == old_self.files);
            lemma_distinct_dirs(old_self);
            lemma_distinct_dirs(*self);
            if distinct_dirs(old_self) {
                assert(0 <= k < d0.len());
                assert(distinct_dirs(d0[k as int].1));
                assert(distinct_dirs(sub0));
                assert forall|a: int, b: int| 0 <= a < b < d_new.len() implies #[trigger] d_new[a].0@
                    != #[trigger] d_new[b].0@ by {
                    assert(d_new[a].0@ == dir_names(d_new)[a] && d0[a].0@ == dir_names(d0)[a]);
                    assert(d_new[b].0@ == dir_names(d_new)[b] && d0[b].0@ == dir_names(d0)[b]);
                }
                assert forall|a: int| 0 <= a < d_new.len() implies #[trigger] distinct_dirs(d_new[a].1) by {
                    if a != k {
                        assert(d_new[a] == d0[a]);
                    }
                }
            }
            assert forall|nm2: Seq<char>| #[trigger] subdir(*self, nm2) == if nm2 == name@ {
                Some(sub)
            } else {
                subdir(old_self, nm2)
            } by {
                lemma_first_named_names(d_new, d0, nm2);
                lemma_first_named_bounds(d0, nm2);
            }
            assert forall|p: Seq<Seq<char>>| #[trigger] has_dir(*self, p) == has_dir(old_self, p) by {
                if p.len() > 0 && p[0] == name@ {
                    assert(has_dir(*self, p) == has_dir(sub, p.drop_first()));
                }
            }
            assert forall|p: Seq<Seq<char>>| #[trigger] files_at(*self, p) == if p == rest {
                files_at(old_self, p).push(file@)
            } else {
                files_at(old_self, p)
            } by {
                if p.len() > 0 && p[0] == name@ {
                    assert(files_at(*self, p) == files_at(sub, p.drop_first()));
                    if p.drop_first() == sp.skip(i + 1) {
                        assert(p =~= rest) by {
                            assert(rest =~= seq![rest[0]] + rest.drop_first());
                            assert(p =~= seq![p[0]] + p.drop_first());
                        }
                    }
                    if p == rest {
                        assert(p.drop_first() == sp.skip(i + 1));
                    }
                }
                if p.len() == 0 {
                    assert(p != rest);
                }
            }
        }
    }

    /// Adds the file at the relative path `rel_path` (its components): the
    /// directories above it first, then its name to the files of its
    /// directory (when the path ends in a name). Gives the directories that
    /// it added, from the outermost.
    pub fn insert_file_path(&mut self, rel_path: &[String]) -> (r: Vec<Vec<String>>)
        ensures
            forall|p: Seq<Seq<char>>|
                #[trigger] has_dir(*final(self), p) <==> has_dir(*old(self), p) || (parent_of(
                    strings_view(rel_path@),
                ) matches Some(q) && is_prefix(p, q)),
            forall|p: Seq<Seq<char>>|
                #[trigger] files_at(*final(self), p) == if parent_of(strings_view(rel_path@))
                    == Some(p) && file_name_of(strings_view(rel_path@)) is Some {
                    files_at(*old(self), p).push(file_name_of(strings_view(rel_path@))->0)
                } else {
                    files_at(*old(self), p)
                },
            paths_view(r@) == match parent_of(strings_view(rel_path@)) {
                Some(q) => missing_dirs(*old(self), q),
                None => seq![],
            },
            distinct_dirs(*old(self)) ==> distinct_dirs(*final(self)),
    {
        let ghost sp = strings_view(rel_path@);
        let n = rel_path.len();
        proof {
            reveal_strlit("/");
            reveal_strlit(".");
            reveal_strlit("..");
        }
        if n == 0 || (n == 1 && str_eq(rel_path[0].as_str(), "/")) {
            let r: Vec<Vec<String>> = Vec::new();
            assert(paths_view(r@) =~= Seq::<Seq<Seq<char>>>::empty());
            return r;
        }
        let mut parent: Vec<String> = Vec::new();
        let mut j: usize = 0;
        while j < n - 1
            invariant
                n == rel_path@.len(),
                n >= 1,
                j <= n - 1,
                sp == strings_view(rel_path@),
                strings_view(parent@) == sp.take(j as int),
            decreases n - 1 - j,
        {
            let ghost pv = parent@;
            parent.push(rel_path[j].clone());
            assert(strings_view(parent@) =~= sp.take(j + 1)) by {
                assert(parent@ == pv.push(rel_path@[j as int]));
                assert(sp[j as int] == rel_path@[j as int]@);
                assert(strings_view(parent@) =~= strings_view(pv).push(sp[j as int]));
                assert(sp.take(j + 1) =~= sp.take(j as int).push(sp[j as int]));
            }
            j = j + 1;
        }
        assert(parent_of(sp) == Some(strings_view(parent@)));
        let ghost s0 = *self;
        let created = self.insert_dir(parent.as_slice());
        let ghost s1 = *self;
        let last = &rel_path[n - 1];
        assert(sp.last() == last@);
        let normal = !str_eq(last.as_str(), "/") && !str_eq(last.as_str(), ".") && !str_eq(last.as_str(), "..");
        if normal {
            proof {
                let q = strings_view(parent@);
                assert(is_prefix(q, q)) by {
                    assert(q.take(q.len() as int) =~= q);
                }
                assert(q.skip(0) =~= q);
            }
            self.add_file_at(parent.as_slice(), 0, last.clone());
            proof {
                let q = strings_view(parent@);
                assert(q.skip(0) =~= q);
            }
        }
        created
    }

}

/// The bytes of each name.
pub open spec fn names_bytes(v: Seq<Seq<char>>) -> Seq<Seq<u8>> {
    v.map_values(|c: Seq<char>| encode_utf8(c))
}

/// The names that the block of a directory lists: `ls-R` itself for the
/// root, then the files, then the subdirectories.
pub open spec fn item_names(n: Node, is_root: bool) -> Seq<Seq<u8>> {
    (if is_root {
        seq!["ls-R".spec_bytes()]
    } else {
        seq![]
    }) + names_bytes(strings_view(n.files@)) + names_bytes(dir_names(n.dirs@))
}

/// The listed names in ascending order, without repetitions at the root.
pub open spec fn listed_items(n: Node, is_root: bool) -> Seq<Seq<u8>> {
    if is_root {
        dedup(sorted_names(item_names(n, is_root)))
    } else {
        sorted_names(item_names(n, is_root))
    }
}

/// Each name on a line of its own.
pub open spec fn name_lines(items: Seq<Seq<u8>>) -> Seq<u8>
    decreases items.len(),
{
    if items.len() == 0 {
        seq![]
    } else {
        name_lines(items.drop_last()) + items.last() + "\n".spec_bytes()
    }
}

/// The `ls-R` blocks of the directory `n` at `path` (`.` for the root)
/// and of the directories below it: the line `<path>:` (`./:` for the
/// root), the listed names, a blank line, then the blocks of the
/// subdirectories in ascending order of their names; nothing for a
/// directory that lists nothing.
pub open spec fn ls_r_blocks(n: Node, path: Seq<u8>, is_root: bool) -> Seq<u8>
    decreases n, 1int, 0int,
{
    if item_names(n, is_root).len() == 0 {
        seq![]
    } else {
        (if is_root {
            "./:\n".spec_bytes()
        } else {
            path + ":\n".spec_bytes()
        }) + name_lines(listed_items(n, is_root)) + "\n".spec_bytes() + subtree_blocks(
            n,
            sorted_names(names_bytes(dir_names(n.dirs@))),
            path,
        )
    }
}

/// The blocks of the subdirectories of `n` named `names`, in that order.
pub open spec fn subtree_blocks(n: Node, names: Seq<Seq<u8>>, path: Seq<u8>) -> Seq<u8>
    decreases n, 0int, names.len(),
{
    if names.len() == 0 {
        seq![]
    } else {
        let i = first_named(n.dirs@, decode_utf8(names.last()));
        subtree_blocks(n, names.drop_last(), path) + if 0 <= i < n.dirs@.len() {
            ls_r_blocks(n.dirs@[i].1, path + "/".spec_bytes() + names.last(), false)
        } else {
            seq![]
        }
    }
}

/// The `ls-R` file of the tree `n`: the kpathsea header line, a blank
/// line, and the blocks from the root down.
pub open spec fn ls_r_text(n: Node) -> Seq<u8> {
    "% ls-R -- filename database for kpathsea; do not change this line.\n\n".spec_bytes()
        + ls_r_blocks(n, ".".spec_bytes(), true)
}

/// Whether `a` comes before `b` or equals it, comparing bytes.
fn lex_le_exec(a: &[u8], b: &[u8]) -> (r: bool)
    ensures
        r == lex_le(a@, b@),
{
    let mut i: usize = 0;
    assert(a@.skip(0) =~= a@ && b@.skip(0) =~= b@);
    loop
        invariant
            i <= a@.len(),
            i <= b@.len(),
            lex_le(a@, b@) == lex_le(a@.skip(i as int), b@.skip(i as int)),
        decreases a@.len() - i,
    {
        if i == a.len() {
            return true;
        }
        if i == b.len() {
            return false;
        }
        if a[i] != b[i] {
            return a[i] < b[i];
        }
        assert(a@.skip(i as int).drop_first() =~= a@.skip(i + 1));
        assert(b@.skip(i as int).drop_first() =~= b@.skip(i + 1));
        i = i + 1;
    }
}

/// `v` in ascending order of the bytes of its strings.
fn sort_strs<'b>(v: Vec<&'b str>) -> (r: Vec<&'b str>)
    ensures
        crate::package::strs_bytes(r@) == sorted_names(crate::package::strs_bytes(v@)),
{
    let ghost vb = crate::package::strs_bytes(v@);
    let mut out: Vec<&'b str> = Vec::new();
    let mut i: usize = 0;
    proof {
        crate::order::lemma_lex_total_ordering();
        assert(crate::package::strs_bytes(out@) =~= Seq::<Seq<u8>>::empty());
        assert(vb.take(0) =~= Seq::<Seq<u8>>::empty());
    }
    while i < v.len()
        invariant
            i <= v@.len(),
            vb == crate::package::strs_bytes(v@),
            sorted_by(crate::package::strs_bytes(out@), lex_order()),
            crate::package::strs_bytes(out@).to_multiset() == vb.take(i as int).to_multiset(),
        decreases v@.len() - i,
    {
        let x = v[i];
        let ghost ob = crate::package::strs_bytes(out@);
        let mut p: usize = 0;
        assert(ob.skip(0) =~= ob);
        while p < out.len() && !lex_le_exec(x.as_bytes(), out[p].as_bytes())
            invariant
                p <= out@.len(),
                ob == crate::package::strs_bytes(out@),
                insert_pos(ob, x.spec_bytes()) == p + insert_pos(ob.skip(p as int), x.spec_bytes()),
            decreases out@.len() - p,
        {
            assert(ob.skip(p as int)[0] == out@[p as int].spec_bytes());
            assert(ob.skip(p as int).drop_first() =~= ob.skip(p + 1));
            p = p + 1;
        }
        proof {
            if p < out@.len() {
                assert(ob.skip(p as int)[0] == out@[p as int].spec_bytes());
            }
            lemma_insert_pos(ob, x.spec_bytes());
        }
        assert(p == insert_pos(ob, x.spec_bytes()));
        let ghost before = out@;
        out.insert(p, x);
        proof {
            assert(crate::package::strs_bytes(out@) =~= ob.insert(p as int, x.spec_bytes()));
            lemma_insert_sorted(ob, x.spec_bytes());
            assert(vb.take(i + 1) =~= vb.take(i as int).push(vb[i as int]));
            assert(vb[i as int] == x.spec_bytes());
            assert(vb.take(i + 1).to_multiset() =~= vb.take(i as int).to_multiset().insert(vb[i as int]));
        }
        i = i + 1;
    }
    proof {
        assert(vb.take(i as int) =~= vb);
        lemma_is_sorted_names(vb, crate::package::strs_bytes(out@));
    }
    out
}

/// `v` without the strings that equal the one before them.
fn dedup_strs<'b>(v: Vec<&'b str>) -> (r: Vec<&'b str>)
    ensures
        crate::package::strs_bytes(r@) == dedup(crate::package::strs_bytes(v@)),
{
    let ghost vb = crate::package::strs_bytes(v@);
    let mut out: Vec<&'b str> = Vec::new();
    let mut i: usize = 0;
    assert(crate::package::strs_bytes(out@) =~= dedup(vb.take(0)));
    while i < v.len()
        invariant
            i <= v@.len(),
            vb == crate::package::strs_bytes(v@),
            crate::package::strs_bytes(out@) == dedup(vb.take(i as int)),
        decreases v@.len() - i,
    {
        let ghost before = crate::package::strs_bytes(out@);
        let ghost t = vb.take(i + 1);
        assert(t.drop_last() =~= vb.take(i as int));
        if i == 0 || !crate::text::bytes_eq(v[i].as_bytes(), v[i - 1].as_bytes()) {
            out.push(v[i]);
            proof {
                assert(crate::package::strs_bytes(out@) =~= before.push(vb[i as int]));
                if i == 0 {
                    assert(dedup(t) =~= t);
                    assert(t =~= seq![vb[0]]);
                    assert(before =~= Seq::<Seq<u8>>::empty());
                } else {
                    assert(t[i as int] == vb[i as int] && t[i - 1] == vb[i - 1]);
                }
            }
        } else {
            assert(t[i as int] == vb[i as int] && t[i - 1] == vb[i - 1]);
        }
        i = i + 1;
    }
    assert(vb.take(i as int) =~= vb);
    out
}

impl Node {
    /// Appends the `ls-R` blocks of this directory, which stands at
    /// `path_buf`, and of the directories below it.
    fn generate_ls_r_internal(&self, path_buf: &mut Vec<u8>, out: &mut Vec<u8>, is_root: bool)
        ensures
            final(out)@ == old(out)@ + ls_r_blocks(*self, old(path_buf)@, is_root),
            final(path_buf)@ == old(path_buf)@,
        decreases self,
    {
        let mut items: Vec<&str> = Vec::new();
        let ghost o = out@;
        let ghost path = path_buf@;
        if is_root {
            items.push("ls-R");
        }
        proof {
            let fb = names_bytes(strings_view(self.files@));
            assert(fb.take(0) =~= Seq::<Seq<u8>>::empty());
            if is_root {
                assert(crate::package::strs_bytes(items@) =~= seq!["ls-R".spec_bytes()]);
            } else {
                assert(crate::package::strs_bytes(items@) =~= Seq::<Seq<u8>>::empty());
            }
        }
        let mut k: usize = 0;
        while k < self.files.len()
            invariant
                k <= self.files@.len(),
                crate::package::strs_bytes(items@) == (if is_root {
                    seq!["ls-R".spec_bytes()]
                } else {
                    seq![]
                }) + names_bytes(strings_view(self.files@)).take(k as int),
            decreases self.files@.len() - k,
        {
            let ghost before = crate::package::strs_bytes(items@);
            let f = self.files[k].as_str();
            items.push(f);
            proof {
                let fb = names_bytes(strings_view(self.files@));
                assert(fb[k as int] == f.spec_bytes());
                assert(fb.take(k + 1) =~= fb.take(k as int).push(fb[k as int]));
                assert(crate::package::strs_bytes(items@) =~= before.push(f.spec_bytes()));
            }
            k = k + 1;
        }
        let mut dirs: Vec<&str> = Vec::new();
        assert(crate::package::strs_bytes(dirs@) =~= names_bytes(dir_names(self.dirs@)).take(0));
        let mut k: usize = 0;
        while k < self.dirs.len()
            invariant
                k <= self.dirs@.len(),
                crate::package::strs_bytes(dirs@) == names_bytes(dir_names(self.dirs@)).take(k as int),
            decreases self.dirs@.len() - k,
        {
            let ghost before = crate::package::strs_bytes(dirs@);
            let d = self.dirs[k].0.as_str();
            dirs.push(d);
            proof {
                let db = names_bytes(dir_names(self.dirs@));
                assert(db[k as int] == d.spec_bytes());
                assert(db.take(k + 1) =~= db.take(k as int).push(db[k as int]));
                assert(crate::package::strs_bytes(dirs@) =~= before.push(d.spec_bytes()));
            }
            k = k + 1;
        }
        let ghost files_b = names_bytes(strings_view(self.files@));
        let ghost dirs_b = names_bytes(dir_names(self.dirs@));
        proof {
            assert(files_b.take(files_b.len() as int) =~= files_b);
            assert(dirs_b.take(dirs_b.len() as int) =~= dirs_b);
        }
        let mut j: usize = 0;
        assert(dirs_b.take(0) =~= Seq::<Seq<u8>>::empty());
        while j < dirs.len()
            invariant
                j <= dirs@.len(),
                crate::package::strs_bytes(dirs@) == dirs_b,
                crate::package::strs_bytes(items@) == (if is_root {
                    seq!["ls-R".spec_bytes()]
                } else {
                    seq![]
                }) + files_b + dirs_b.take(j as int),
            decreases dirs@.len() - j,
        {
            let ghost before = crate::package::strs_bytes(items@);
            let d = dirs[j];
            items.push(d);
            proof {
                assert(dirs_b[j as int] == d.spec_bytes());
                assert(dirs_b.take(j + 1) =~= dirs_b.take(j as int).push(dirs_b[j as int]));
                assert(crate::package::strs_bytes(items@) =~= before.push(d.spec_bytes()));
            }
            j = j + 1;
        }
        proof {
            assert(dirs_b.take(j as int) =~= dirs_b);
            assert(crate::package::strs_bytes(items@) == item_names(*self, is_root));
        }
        if items.len() == 0 {
            return ;
        }
        let sorted = sort_strs(items);
        let listed = if is_root {
            dedup_strs(sorted)
        } else {
            sorted
        };
        let sorted_dirs = sort_strs(dirs);
        let ghost head = if is_root {
            "./:\n".spec_bytes()
        } else {
            path + ":\n".spec_bytes()
        };
        if is_root {
            push_bytes(out, "./:\n".as_bytes());
        } else {
            push_bytes(out, path_buf.as_slice());
            push_bytes(out, ":\n".as_bytes());
        }
        let ghost lb = crate::package::strs_bytes(listed@);
        assert(lb == listed_items(*self, is_root));
        assert(out@ =~= o + head + name_lines(lb.take(0)));
        let mut m: usize = 0;
        while m < listed.len()
            invariant
                m <= listed@.len(),
                lb == crate::package::strs_bytes(listed@),
                out@ == o + head + name_lines(lb.take(m as int)),
            decreases listed@.len() - m,
        {
            let ghost before = out@;
            let item = listed[m];
            push_bytes(out, item.as_bytes());
            push_bytes(out, "\n".as_bytes());
            proof {
                assert(lb[m as int] == item.spec_bytes());
                assert(lb.take(m + 1).drop_last() =~= lb.take(m as int));
                assert(out@ =~= o + head + name_lines(lb.take(m + 1)));
            }
            m = m + 1;
        }
        push_bytes(out, "\n".as_bytes());
        let ghost sdb = crate::package::strs_bytes(sorted_dirs@);
        proof {
            assert(lb.take(m as int) =~= lb);
            assert(sdb.take(0) =~= Seq::<Seq<u8>>::empty());
            assert(out@ =~= o + head + name_lines(lb) + "\n".spec_bytes() + subtree_blocks(*self, sdb.take(0), path));
        }
        let mut q: usize = 0;
        let base_len = path_buf.len();
        while q < sorted_dirs.len()
            invariant
                q <= sorted_dirs@.len(),
                path_buf@ == path,
                base_len == path.len(),
                sdb == crate::package::strs_bytes(sorted_dirs@),
                out@ == o + head + name_lines(lb) + "\n".spec_bytes() + subtree_blocks(
                    *self,
                    sdb.take(q as int),
                    path,
                ),
            decreases sorted_dirs@.len() - q,
        {
            let ghost before = out@;
            let dir = sorted_dirs[q];
            let c = self.find_dir(dir);
            proof {
                assert(sdb[q as int] == dir.spec_bytes());
                assert(sdb.take(q + 1).drop_last() =~= sdb.take(q as int));
                assert(sdb.take(q + 1).last() == dir.spec_bytes());
                assert(decode_utf8(dir.spec_bytes()) == dir@);
            }
            if c < self.dirs.len() {
                push_bytes(path_buf, "/".as_bytes());
                push_bytes(path_buf, dir.as_bytes());
                let child = &self.dirs[c].1;
                child.generate_ls_r_internal(path_buf, out, false);
                path_buf.truncate(base_len);
                assert(path_buf@ =~= path);
            }
            q = q + 1;
        }
        proof {
            assert(sdb.take(q as int) =~= sdb);
        }
    }

    /// The `ls-R` index of this tree, appended to `out`.
    pub fn generate_texmf_dist_ls_r(&self, out: &mut Vec<u8>)
        ensures
            final(out)@ == old(out)@ + ls_r_text(*self),
    {
        push_bytes(out, "% ls-R -- filename database for kpathsea; do not change this line.\n\n".as_bytes());
        let mut path_buf: Vec<u8> = Vec::new();
        push_bytes(&mut path_buf, ".".as_bytes());
        self.generate_ls_r_internal(&mut path_buf, out, true);
    }
}

} // verus!
