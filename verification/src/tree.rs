//! A path tree over the archive's entry table: interior nodes per
//! directory component, file leaves holding entry indices. Presentation
//! layers walk it to list an archive's contents.

use vstd::prelude::*;

verus! {

/// One directory level: named subdirectories and named files (each file
/// holds the index of its entry in the archive's table).
pub struct TreeNode {
    /// Subdirectories, looked up by the first matching name.
    pub children: Vec<(String, TreeNode)>,
    /// Files at this level, looked up by the first matching name.
    pub files: Vec<(String, usize)>,
}

/// The entry index stored under the first file with this name.
pub open spec fn find_file(files: Seq<(String, usize)>, name: Seq<char>) -> Option<usize>
    decreases files.len(),
{
    if files.len() == 0 {
        None
    } else if files[0].0@ == name {
        Some(files[0].1)
    } else {
        find_file(files.skip(1), name)
    }
}

/// The first subdirectory with this name.
pub open spec fn find_child(children: Seq<(String, TreeNode)>, name: Seq<char>) -> Option<
    TreeNode,
>
    decreases children.len(),
{
    if children.len() == 0 {
        None
    } else if children[0].0@ == name {
        Some(children[0].1)
    } else {
        find_child(children.skip(1), name)
    }
}

/// The entry index a component path leads to, if any.
pub open spec fn spec_lookup(t: TreeNode, path: Seq<Seq<char>>) -> Option<usize>
    decreases path.len(),
{
    if path.len() == 0 {
        None
    } else if path.len() == 1 {
        find_file(t.files@, path[0])
    } else {
        match find_child(t.children@, path[0]) {
            Some(c) => spec_lookup(c, path.skip(1)),
            None => None,
        }
    }
}

/// The character sequences of a component list.
pub open spec fn path_view(parts: Seq<&str>) -> Seq<Seq<char>> {
    parts.map_values(|s: &str| s@)
}

/// A scan that matched nothing pins the file lookup to `None`.
proof fn lemma_find_file_none(files: Seq<(String, usize)>, name: Seq<char>)
    requires
        forall|j: int| 0 <= j < files.len() ==> (#[trigger] files[j]).0@ != name,
    ensures
        find_file(files, name) is None,
    decreases files.len(),
{
    if files.len() > 0 {
        lemma_find_file_none(files.skip(1), name);
    }
}

/// Replacing the first matching file entry changes that name's lookup and
/// no other.
proof fn lemma_find_file_update(
    files: Seq<(String, usize)>,
    k: int,
    name: Seq<char>,
    s2: String,
    v: usize,
)
    requires
        0 <= k < files.len(),
        files[k].0@ == name,
        s2@ == name,
        forall|j: int| 0 <= j < k ==> (#[trigger] files[j]).0@ != name,
    ensures
        find_file(files.update(k, (s2, v)), name) == Some(v),
        forall|n: Seq<char>|
            n != name ==> find_file(files.update(k, (s2, v)), n) == find_file(files, n),
    decreases files.len(),
{
    let upd = files.update(k, (s2, v));
    if k == 0 {
        assert(upd.skip(1) =~= files.skip(1));
        assert(upd[0] == (s2, v));
    } else {
        assert(upd.skip(1) =~= files.skip(1).update(k - 1, (s2, v)));
        lemma_find_file_update(files.skip(1), k - 1, name, s2, v);
        assert(upd[0] == files[0]);
        assert forall|n: Seq<char>| n != name implies find_file(upd, n) == find_file(
            files,
            n,
        ) by {
            assert(find_file(upd.skip(1), n) == find_file(files.skip(1), n));
        }
    }
}

/// Appending a file entry whose name was absent adds that name's lookup
/// and changes no other.
proof fn lemma_find_file_push(files: Seq<(String, usize)>, s2: String, v: usize)
    requires
        find_file(files, s2@) is None,
    ensures
        find_file(files.push((s2, v)), s2@) == Some(v),
        forall|n: Seq<char>|
            n != s2@ ==> find_file(files.push((s2, v)), n) == find_file(files, n),
    decreases files.len(),
{
    let ext = files.push((s2, v));
    if files.len() == 0 {
        assert(ext.skip(1) =~= Seq::<(String, usize)>::empty());
        assert(ext[0] == (s2, v));
        assert forall|n: Seq<char>| n != s2@ implies find_file(ext, n) == find_file(
            files,
            n,
        ) by {
            lemma_find_file_none(ext.skip(1), n);
        }
    } else {
        assert(ext.skip(1) =~= files.skip(1).push((s2, v)));
        lemma_find_file_push(files.skip(1), s2, v);
        assert(ext[0] == files[0]);
        assert forall|n: Seq<char>| n != s2@ implies find_file(ext, n) == find_file(
            files,
            n,
        ) by {
            assert(find_file(ext.skip(1), n) == find_file(files.skip(1), n));
        }
    }
}

/// A scan that matched nothing pins the subdirectory lookup to `None`.
proof fn lemma_find_child_none(children: Seq<(String, TreeNode)>, name: Seq<char>)
    requires
        forall|j: int| 0 <= j < children.len() ==> (#[trigger] children[j]).0@ != name,
    ensures
        find_child(children, name) is None,
    decreases children.len(),
{
    if children.len() > 0 {
        lemma_find_child_none(children.skip(1), name);
    }
}

/// Replacing the first matching subdirectory changes that name's lookup
/// and no other.
proof fn lemma_find_child_update(
    children: Seq<(String, TreeNode)>,
    k: int,
    name: Seq<char>,
    s2: String,
    c: TreeNode,
)
    requires
        0 <= k < children.len(),
        children[k].0@ == name,
        s2@ == name,
        forall|j: int| 0 <= j < k ==> (#[trigger] children[j]).0@ != name,
    ensures
        find_child(children.update(k, (s2, c)), name) == Some(c),
        forall|n: Seq<char>|
            n != name ==> find_child(children.update(k, (s2, c)), n) == find_child(children, n),
    decreases children.len(),
{
    let upd = children.update(k, (s2, c));
    if k == 0 {
        assert(upd.skip(1) =~= children.skip(1));
        assert(upd[0] == (s2, c));
    } else {
        assert(upd.skip(1) =~= children.skip(1).update(k - 1, (s2, c)));
        lemma_find_child_update(children.skip(1), k - 1, name, s2, c);
        assert(upd[0] == children[0]);
        assert forall|n: Seq<char>| n != name implies find_child(upd, n) == find_child(
            children,
            n,
        ) by {
            assert(find_child(upd.skip(1), n) == find_child(children.skip(1), n));
        }
    }
}

/// Appending a subdirectory whose name was absent adds that name's lookup
/// and changes no other.
proof fn lemma_find_child_push(children: Seq<(String, TreeNode)>, s2: String, c: TreeNode)
    requires
        find_child(children, s2@) is None,
    ensures
        find_child(children.push((s2, c)), s2@) == Some(c),
        forall|n: Seq<char>|
            n != s2@ ==> find_child(children.push((s2, c)), n) == find_child(children, n),
    decreases children.len(),
{
    let ext = children.push((s2, c));
    if children.len() == 0 {
        assert(ext.skip(1) =~= Seq::<(String, TreeNode)>::empty());
        assert(ext[0] == (s2, c));
        assert forall|n: Seq<char>| n != s2@ implies find_child(ext, n) == find_child(
            children,
            n,
        ) by {
            lemma_find_child_none(ext.skip(1), n);
        }
    } else {
        assert(ext.skip(1) =~= children.skip(1).push((s2, c)));
        lemma_find_child_push(children.skip(1), s2, c);
        assert(ext[0] == children[0]);
        assert forall|n: Seq<char>| n != s2@ implies find_child(ext, n) == find_child(
            children,
            n,
        ) by {
            assert(find_child(ext.skip(1), n) == find_child(children.skip(1), n));
        }
    }
}

/// A scan whose first match is at `k` pins the subdirectory lookup to
/// that entry.
proof fn lemma_find_child_at(children: Seq<(String, TreeNode)>, k: int, name: Seq<char>)
    requires
        0 <= k < children.len(),
        children[k].0@ == name,
        forall|j: int| 0 <= j < k ==> (#[trigger] children[j]).0@ != name,
    ensures
        find_child(children, name) == Some(children[k].1),
    decreases k,
{
    if k > 0 {
        lemma_find_child_at(children.skip(1), k - 1, name);
    }
}

/// Nothing can be looked up in a node with no children and no files.
proof fn lemma_lookup_empty(t: TreeNode, q: Seq<Seq<char>>)
    requires
        t.children@.len() == 0,
        t.files@.len() == 0,
    ensures
        spec_lookup(t, q) is None,
{
}

impl TreeNode {
    /// A node with no children and no files.
    pub fn new() -> (t: TreeNode)
        ensures
            t.children@.len() == 0,
            t.files@.len() == 0,
            forall|q: Seq<Seq<char>>| #[trigger] spec_lookup(t, q) is None,
    {
        let t = TreeNode { children: Vec::new(), files: Vec::new() };
        proof {
            assert forall|q: Seq<Seq<char>>| #[trigger] spec_lookup(t, q) is None by {
                lemma_lookup_empty(t, q);
            }
        }
        t
    }

    /// Files an entry index under a component path: the named path now
    /// leads to `file_index` and every other path leads where it led
    /// before. An empty path changes nothing.
    #[verifier::loop_isolation(false)]
    #[verifier::rlimit(60)]
    pub fn insert(&mut self, parts: &[&str], file_index: usize)
        ensures
            forall|q: Seq<Seq<char>>|
                #[trigger] spec_lookup(*final(self), q) == (if q == path_view(parts@) && q.len()
                    > 0 {
                    Some(file_index)
                } else {
                    spec_lookup(*old(self), q)
                }),
        decreases parts@.len(),
    {
        let ghost pv = path_view(parts@);
        if parts.len() == 0 {
            return ;
        }
        if parts.len() == 1 {
            let name: &str = parts[0];
            let owned: String = name.to_owned();
            let mut k: usize = 0;
            while k < self.files.len() && !(self.files[k].0 == owned)
                invariant
                    k <= self.files@.len(),
                    owned@ == name@,
                    forall|j: int| 0 <= j < k ==> (#[trigger] self.files@[j]).0@ != name@,
                decreases self.files@.len() - k,
            {
                k = k + 1;
            }
            let ghost old_files = self.files@;
            let ghost owned_spec = owned;
            if k < self.files.len() {
                self.files[k] = (owned, file_index);
                proof {
                    lemma_find_file_update(old_files, k as int, name@, owned_spec, file_index);
                }
            } else {
                proof {
                    lemma_find_file_none(old_files, name@);
                }
                self.files.push((owned, file_index));
                proof {
                    lemma_find_file_push(old_files, owned_spec, file_index);
                }
            }
            proof {
                assert forall|q: Seq<Seq<char>>|
                    #[trigger] spec_lookup(*self, q) == (if q == pv && q.len() > 0 {
                        Some(file_index)
                    } else {
                        spec_lookup(*old(self), q)
                    }) by {
                    if q.len() == 1 {
                        if q == pv {
                            assert(q[0] == name@);
                        } else {
                            assert(q[0] != name@) by {
                                if q[0] == name@ {
                                    assert(q =~= pv);
                                }
                            }
                        }
                    }
                }
            }
            return ;
        }
        // descend into (or create) the child for the first component
        let name: &str = parts[0];
        let owned: String = name.to_owned();
        let mut k: usize = 0;
        while k < self.children.len() && !(self.children[k].0 == owned)
            invariant
                k <= self.children@.len(),
                owned@ == name@,
                forall|j: int| 0 <= j < k ==> (#[trigger] self.children@[j]).0@ != name@,
            decreases self.children@.len() - k,
        {
            k = k + 1;
        }
        let ghost old_children = self.children@;
        let ghost rest = pv.skip(1);
        proof {
            assert(path_view(parts@.subrange(1, parts@.len() as int)) =~= rest);
        }
        if k < self.children.len() {
            proof {
                lemma_find_child_at(old_children, k as int, name@);
            }
            let mut pair = self.children.remove(k);
            let ghost old_child = pair.1;
            pair.1.insert(&parts[1..parts.len()], file_index);
            let ghost kept_name = pair.0;
            let ghost new_child = pair.1;
            self.children.insert(k, pair);
            proof {
                assert(self.children@ =~= old_children.update(
                    k as int,
                    (kept_name, new_child),
                ));
                lemma_find_child_update(old_children, k as int, name@, kept_name, new_child);
                lemma_insert_frame(
                    *old(self),
                    *self,
                    old_child,
                    new_child,
                    name@,
                    rest,
                    pv,
                    file_index,
                );
            }
        } else {
            proof {
                lemma_find_child_none(old_children, name@);
            }
            let ghost owned_spec = owned;
            let mut child = TreeNode::new();
            let ghost empty_child = child;
            child.insert(&parts[1..parts.len()], file_index);
            let ghost new_child = child;
            self.children.push((owned, child));
            proof {
                lemma_find_child_push(old_children, owned_spec, new_child);
                assert forall|q: Seq<Seq<char>>|
                    #[trigger] spec_lookup(*self, q) == (if q == pv && q.len() > 0 {
                        Some(file_index)
                    } else {
                        spec_lookup(*old(self), q)
                    }) by {
                    lemma_lookup_frame_cases(
                        *old(self),
                        *self,
                        empty_child,
                        new_child,
                        name@,
                        rest,
                        pv,
                        file_index,
                        q,
                        true,
                    );
                }
            }
        }
    }
}

/// After the child for `name` was rebuilt by a recursive insert, every
/// lookup relates to the old tree as the contract promises.
proof fn lemma_insert_frame(
    told: TreeNode,
    tnew: TreeNode,
    old_child: TreeNode,
    new_child: TreeNode,
    name: Seq<char>,
    rest: Seq<Seq<char>>,
    pv: Seq<Seq<char>>,
    file_index: usize,
)
    requires
        pv.len() >= 2,
        pv[0] == name,
        rest == pv.skip(1),
        tnew.files@ == told.files@,
        find_child(told.children@, name) == Some(old_child),
        find_child(tnew.children@, name) == Some(new_child),
        forall|n: Seq<char>|
            n != name ==> find_child(tnew.children@, n) == find_child(told.children@, n),
        forall|q2: Seq<Seq<char>>|
            #[trigger] spec_lookup(new_child, q2) == (if q2 == rest && q2.len() > 0 {
                Some(file_index)
            } else {
                spec_lookup(old_child, q2)
            }),
    ensures
        forall|q: Seq<Seq<char>>|
            #[trigger] spec_lookup(tnew, q) == (if q == pv && q.len() > 0 {
                Some(file_index)
            } else {
                spec_lookup(told, q)
            }),
{
    assert forall|q: Seq<Seq<char>>|
        #[trigger] spec_lookup(tnew, q) == (if q == pv && q.len() > 0 {
            Some(file_index)
        } else {
            spec_lookup(told, q)
        }) by {
        if q.len() >= 2 {
            assert(spec_lookup(tnew, q) == (match find_child(tnew.children@, q[0]) {
                Some(c) => spec_lookup(c, q.skip(1)),
                None => None,
            }));
            if q[0] == name {
                assert(spec_lookup(tnew, q) == spec_lookup(new_child, q.skip(1)));
                assert(spec_lookup(told, q) == spec_lookup(old_child, q.skip(1)));
                if q.skip(1) == rest {
                    assert(q.len() == pv.len());
                    assert forall|i: int| 0 <= i < q.len() implies q[i] == pv[i] by {
                        if i >= 1 {
                            assert(q.skip(1)[i - 1] == q[i]);
                            assert(pv.skip(1)[i - 1] == pv[i]);
                        }
                    }
                    assert(q =~= pv);
                    assert(spec_lookup(new_child, q.skip(1)) == Some(file_index));
                } else {
                    assert(q != pv) by {
                        if q == pv {
                            assert(q.skip(1) == rest);
                        }
                    }
                    assert(spec_lookup(new_child, q.skip(1)) == spec_lookup(
                        old_child,
                        q.skip(1),
                    ));
                }
            } else {
                assert(q != pv);
                assert(find_child(tnew.children@, q[0]) == find_child(told.children@, q[0]));
            }
        } else {
            assert(q != pv) by {
                if q == pv {
                    assert(q.len() == pv.len());
                }
            }
        }
    }
}

/// The same framing for the branch that appends a fresh child: the fresh
/// node held nothing before the recursive insert filled it.
proof fn lemma_lookup_frame_cases(
    told: TreeNode,
    tnew: TreeNode,
    empty_child: TreeNode,
    new_child: TreeNode,
    name: Seq<char>,
    rest: Seq<Seq<char>>,
    pv: Seq<Seq<char>>,
    file_index: usize,
    q: Seq<Seq<char>>,
    fresh: bool,
)
    requires
        pv.len() >= 2,
        pv[0] == name,
        rest == pv.skip(1),
        tnew.files@ == told.files@,
        empty_child.children@.len() == 0,
        empty_child.files@.len() == 0,
        find_child(told.children@, name) is None,
        find_child(tnew.children@, name) == Some(new_child),
        forall|n: Seq<char>|
            n != name ==> find_child(tnew.children@, n) == find_child(told.children@, n),
        forall|q2: Seq<Seq<char>>|
            #[trigger] spec_lookup(new_child, q2) == (if q2 == rest && q2.len() > 0 {
                Some(file_index)
            } else {
                spec_lookup(empty_child, q2)
            }),
    ensures
        spec_lookup(tnew, q) == (if q == pv && q.len() > 0 {
            Some(file_index)
        } else {
            spec_lookup(told, q)
        }),
{
    lemma_lookup_empty(empty_child, q.skip(1));
    if q.len() >= 2 {
        if q[0] == name {
            assert(spec_lookup(tnew, q) == spec_lookup(new_child, q.skip(1)));
            assert(spec_lookup(told, q) is None);
            if q.skip(1) == rest {
                assert(q.len() == pv.len());
                assert forall|i: int| 0 <= i < q.len() implies q[i] == pv[i] by {
                    if i >= 1 {
                        assert(q.skip(1)[i - 1] == q[i]);
                        assert(pv.skip(1)[i - 1] == pv[i]);
                    }
                }
                assert(q =~= pv);
                assert(spec_lookup(new_child, q.skip(1)) == Some(file_index));
            } else {
                assert(q != pv) by {
                    if q == pv {
                        assert(q.skip(1) == rest);
                    }
                }
                assert(spec_lookup(new_child, q.skip(1)) == spec_lookup(
                    empty_child,
                    q.skip(1),
                ));
            }
        } else {
            assert(q != pv);
            assert(find_child(tnew.children@, q[0]) == find_child(told.children@, q[0]));
        }
    } else {
        assert(q != pv) by {
            if q == pv {
                assert(q.len() == pv.len());
            }
        }
    }
}

} // verus!
