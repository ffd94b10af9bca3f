//! A model of the filesystem bridge.
//!
//! The bridge exposes four operations: create a directory, list a
//! directory, read a file and write a file.  `FileSystem` gives those
//! operations exact semantics over a map from absolute paths to nodes;
//! the unverified shell performs the same operations against the real
//! filesystem and its behaviour is documented by the contracts here.

use vstd::prelude::*;

use crate::paths::{
    base_name, is_ancestor_or_self, is_valid_name, is_valid_path, join, join_path,
    lemma_join_facts, lemma_parent_ancestor, lemma_parent_of_valid, parent_of, parent_path, root,
    valid_name, valid_path,
};
use crate::paths::file_name_of;

verus! {

/// The error kinds of the bridge.  `IoFailure` collapses every OS-level
/// failure into one kind; the shell logs the OS message beside it.
#[derive(Clone, Copy, Debug, PartialEq, Eq, Structural)]
pub enum FsError {
    /// The target of a directory creation already exists.
    AlreadyExists,
    /// A generic OS-level failure: not found, permission denied, disk error.
    IoFailure,
    /// The file's bytes are not valid text.
    NotUtf8,
}

/// One node of the modelled filesystem.
#[derive(Clone, Debug)]
pub enum FsNode {
    /// A directory.
    Dir,
    /// A file whose bytes decode as text.
    Text(String),
    /// A file whose bytes are not valid text, as an external program may
    /// leave it; reading it fails with `NotUtf8`.
    Raw,
}

/// The mathematical value of one node.
pub ghost enum NodeV {
    Dir,
    Text(Seq<char>),
    Raw,
}

impl View for FsNode {
    type V = NodeV;

    open spec fn view(&self) -> NodeV {
        match self {
            FsNode::Dir => NodeV::Dir,
            FsNode::Text(s) => NodeV::Text(s@),
            FsNode::Raw => NodeV::Raw,
        }
    }
}

/// One entry of a directory listing, produced fresh on every listing.
#[derive(Clone, Debug, PartialEq)]
pub struct DirEntry {
    /// The entry's absolute path.
    pub path: String,
    /// Whether the entry is a directory.
    pub is_dir: bool,
    /// The final component of `path`.
    pub name: String,
}

/// The mathematical value of one listing entry.
pub ghost struct EntryV {
    pub path: Seq<char>,
    pub is_dir: bool,
    pub name: Seq<char>,
}

impl View for DirEntry {
    type V = EntryV;

    open spec fn view(&self) -> EntryV {
        EntryV { path: self.path@, is_dir: self.is_dir, name: self.name@ }
    }
}

/// The map described by a sequence of key/node pairs; a later pair wins,
/// though the well-formed filesystem never holds a key twice.
pub open spec fn map_of(s: Seq<(String, FsNode)>) -> Map<Seq<char>, NodeV>
    decreases s.len(),
{
    if s.len() == 0 {
        Map::empty()
    } else {
        map_of(s.drop_last()).insert(s.last().0@, s.last().1@)
    }
}

/// No two pairs share a key.
pub open spec fn unique_keys(s: Seq<(String, FsNode)>) -> bool {
    forall|i: int, j: int|
        0 <= i < j < s.len() ==> #[trigger] s[i].0@ != #[trigger] s[j].0@
}

/// A well-formed filesystem: the root directory exists, every key is a
/// valid absolute path, and every non-root key hangs under an existing
/// directory.
pub open spec fn map_wf(m: Map<Seq<char>, NodeV>) -> bool {
    &&& m.contains_key(root()) && m[root()] is Dir
    &&& forall|k: Seq<char>| #[trigger] m.contains_key(k) ==> valid_path(k)
    &&& forall|k: Seq<char>|
        #[trigger] m.contains_key(k) && k.len() > 1 ==> m.contains_key(parent_of(k))
            && m[parent_of(k)] is Dir
}

/// `k` is an immediate child of `p`.
pub open spec fn is_child_of(k: Seq<char>, p: Seq<char>) -> bool {
    valid_path(k) && k.len() > 1 && parent_of(k) == p
}

/// What reading `p` yields on the filesystem `m`.
pub open spec fn read_spec(m: Map<Seq<char>, NodeV>, p: Seq<char>) -> Result<Seq<char>, FsError> {
    if !m.contains_key(p) {
        Err(FsError::IoFailure)
    } else {
        match m[p] {
            NodeV::Dir => Err(FsError::IoFailure),
            NodeV::Text(c) => Ok(c),
            NodeV::Raw => Err(FsError::NotUtf8),
        }
    }
}

/// Whether writing to `p` can succeed on `m`: the target is an existing
/// file, or absent with an existing parent directory.
pub open spec fn write_allowed(m: Map<Seq<char>, NodeV>, p: Seq<char>) -> bool {
    if m.contains_key(p) {
        !(m[p] is Dir)
    } else {
        valid_path(p) && p.len() > 1 && m.contains_key(parent_of(p)) && m[parent_of(p)] is Dir
    }
}

/// The filesystem after a successful write of text `c` to `p`.
pub open spec fn write_result(
    m: Map<Seq<char>, NodeV>,
    p: Seq<char>,
    c: Seq<char>,
) -> Map<Seq<char>, NodeV> {
    m.insert(p, NodeV::Text(c))
}

/// Some existing ancestor of `t` (or `t` itself) is not a directory, so
/// directories cannot be created along the whole chain.
pub open spec fn create_blocked(m: Map<Seq<char>, NodeV>, t: Seq<char>) -> bool {
    exists|q: Seq<char>|
        is_ancestor_or_self(q, t) && #[trigger] m.contains_key(q) && !(m[q] is Dir)
}

/// The filesystem after creating `t` and every missing ancestor of it.
pub open spec fn created_map(m: Map<Seq<char>, NodeV>, t: Seq<char>) -> Map<Seq<char>, NodeV> {
    Map::new(
        |q: Seq<char>| m.contains_key(q) || is_ancestor_or_self(q, t),
        |q: Seq<char>| if m.contains_key(q) { m[q] } else { NodeV::Dir },
    )
}

/// What creating the directory `name` under `base` does to `m`: the new
/// filesystem and the returned path or error.
pub open spec fn create_spec(
    m: Map<Seq<char>, NodeV>,
    base: Seq<char>,
    name: Seq<char>,
) -> (Map<Seq<char>, NodeV>, Result<Seq<char>, FsError>) {
    if !valid_path(base) || !valid_name(name) {
        (m, Err(FsError::IoFailure))
    } else {
        let t = join(base, name);
        if m.contains_key(t) {
            (m, Err(FsError::AlreadyExists))
        } else if create_blocked(m, t) {
            (m, Err(FsError::IoFailure))
        } else {
            (created_map(m, t), Ok(t))
        }
    }
}

/// A key is in `map_of(s)` exactly when some pair of `s` carries it.
pub proof fn lemma_map_of_contains(s: Seq<(String, FsNode)>, k: Seq<char>)
    ensures
        map_of(s).contains_key(k) <==> exists|i: int| 0 <= i < s.len() && #[trigger] s[i].0@ == k,
    decreases s.len(),
{
    if s.len() > 0 {
        lemma_map_of_contains(s.drop_last(), k);
        if s.last().0@ == k {
            assert(s[s.len() - 1].0@ == k);
        } else {
            assert(forall|i: int| 0 <= i < s.len() - 1 ==> s.drop_last()[i] == s[i]);
            if exists|i: int| 0 <= i < s.len() && #[trigger] s[i].0@ == k {
                let i = choose|i: int| 0 <= i < s.len() && #[trigger] s[i].0@ == k;
                assert(i < s.len() - 1);
                assert(s.drop_last()[i].0@ == k);
            }
        }
    }
}

/// With unique keys, `map_of(s)` maps each pair's key to its node.
pub proof fn lemma_map_of_index(s: Seq<(String, FsNode)>, i: int)
    requires
        unique_keys(s),
        0 <= i < s.len(),
    ensures
        map_of(s).contains_key(s[i].0@),
        map_of(s)[s[i].0@] == s[i].1@,
    decreases s.len(),
{
    if i < s.len() - 1 {
        assert(forall|a: int| 0 <= a < s.len() - 1 ==> s.drop_last()[a] == s[a]);
        lemma_map_of_index(s.drop_last(), i);
        assert(s.last().0@ != s[i].0@);
    }
}

/// Updating the node of pair `i` updates the map at that key alone.
pub proof fn lemma_map_of_update(s: Seq<(String, FsNode)>, i: int, node: FsNode)
    requires
        unique_keys(s),
        0 <= i < s.len(),
    ensures
        map_of(s.update(i, (s[i].0, node))) =~= map_of(s).insert(s[i].0@, node@),
    decreases s.len(),
{
    let s2 = s.update(i, (s[i].0, node));
    if i == s.len() - 1 {
        assert(s2.drop_last() =~= s.drop_last());
    } else {
        assert(forall|a: int| 0 <= a < s.len() - 1 ==> s.drop_last()[a] == s[a]);
        lemma_map_of_update(s.drop_last(), i, node);
        assert(s2.drop_last() =~= s.drop_last().update(i, (s[i].0, node)));
        assert(s2.last() == s.last());
        assert(s.last().0@ != s[i].0@);
        assert(map_of(s2) == map_of(s2.drop_last()).insert(s.last().0@, s.last().1@));
        assert(map_of(s.drop_last()).insert(s[i].0@, node@).insert(s.last().0@, s.last().1@)
            =~= map_of(s.drop_last()).insert(s.last().0@, s.last().1@).insert(s[i].0@, node@));
    }
}

/// The set of immediate children of `p` on the filesystem `m`.
pub open spec fn children_of(m: Map<Seq<char>, NodeV>, p: Seq<char>) -> Set<Seq<char>> {
    Set::new(|k: Seq<char>| m.contains_key(k) && is_child_of(k, p))
}

/// The set of paths a sequence of listing entries carries.
pub open spec fn entry_paths(es: Seq<EntryV>) -> Set<Seq<char>> {
    Set::new(|k: Seq<char>| exists|i: int| 0 <= i < es.len() && (#[trigger] es[i]).path == k)
}

/// A listing is exactly the set of immediate children: any entry
/// sequence that is sound (every entry an existing child) and complete
/// (every existing child listed) — as `list_directory` promises of a
/// successful result — carries, as a set, precisely the children of
/// the listed directory, in whatever order it arrives.
pub proof fn lemma_listing_is_child_set(
    m: Map<Seq<char>, NodeV>,
    p: Seq<char>,
    es: Seq<EntryV>,
)
    requires
        forall|i: int|
            0 <= i < es.len() ==> m.contains_key((#[trigger] es[i]).path) && is_child_of(
                es[i].path,
                p,
            ),
        forall|k: Seq<char>|
            #[trigger] m.contains_key(k) && is_child_of(k, p) ==> exists|i: int|
                0 <= i < es.len() && (#[trigger] es[i]).path == k,
    ensures
        entry_paths(es) == children_of(m, p),
{
    assert(entry_paths(es) =~= children_of(m, p)) by {
        assert forall|k: Seq<char>| #[trigger] entry_paths(es).contains(k) implies children_of(
            m,
            p,
        ).contains(k) by {
            let i = choose|i: int| 0 <= i < es.len() && (#[trigger] es[i]).path == k;
            assert(m.contains_key(es[i].path) && is_child_of(es[i].path, p));
        }
        assert forall|k: Seq<char>| #[trigger] children_of(m, p).contains(k) implies entry_paths(
            es,
        ).contains(k) by {
            assert(m.contains_key(k) && is_child_of(k, p));
        }
    }
}

/// Creating a directory fails with `AlreadyExists` exactly when the
/// target `base/name` already exists at call time, and then the
/// filesystem is left unchanged.
pub proof fn lemma_create_already_exists_iff(
    m: Map<Seq<char>, NodeV>,
    base: Seq<char>,
    name: Seq<char>,
)
    requires
        valid_path(base),
        valid_name(name),
    ensures
        create_spec(m, base, name).1 == Err::<Seq<char>, FsError>(FsError::AlreadyExists)
            <==> m.contains_key(join(base, name)),
        m.contains_key(join(base, name)) ==> create_spec(m, base, name).0 == m,
{
}

/// When the target does not exist and no existing ancestor stands in
/// the way, creation succeeds: it returns the path `base/name`, creates
/// it and every missing ancestor as directories, and touches nothing
/// else.
pub proof fn lemma_create_success(m: Map<Seq<char>, NodeV>, base: Seq<char>, name: Seq<char>)
    requires
        valid_path(base),
        valid_name(name),
        !m.contains_key(join(base, name)),
        !create_blocked(m, join(base, name)),
    ensures
        create_spec(m, base, name).1 == Ok::<Seq<char>, FsError>(join(base, name)),
        create_spec(m, base, name).0 == created_map(m, join(base, name)),
        create_spec(m, base, name).0.contains_key(join(base, name)),
        create_spec(m, base, name).0[join(base, name)] is Dir,
        forall|q: Seq<char>|
            #[trigger] m.contains_key(q) ==> create_spec(m, base, name).0.contains_key(q)
                && create_spec(m, base, name).0[q] == m[q],
{
    lemma_join_facts(base, name);
}

/// Round trip: where a write is allowed, writing text `c` to `p` and
/// reading `p` back yields exactly `c`.
pub proof fn lemma_write_then_read(m: Map<Seq<char>, NodeV>, p: Seq<char>, c: Seq<char>)
    requires
        write_allowed(m, p),
    ensures
        read_spec(write_result(m, p, c), p) == Ok::<Seq<char>, FsError>(c),
{
}

/// In a well-formed filesystem, every ancestor of an existing path exists,
/// and every proper ancestor is a directory.
pub proof fn lemma_wf_ancestor(m: Map<Seq<char>, NodeV>, q: Seq<char>, x: Seq<char>)
    requires
        map_wf(m),
        m.contains_key(x),
        is_ancestor_or_self(q, x),
    ensures
        m.contains_key(q),
        q != x ==> m[q] is Dir,
    decreases x.len(),
{
    if q != x {
        lemma_parent_of_valid(x);
        lemma_wf_ancestor(m, q, parent_of(x));
    }
}

/// The modelled filesystem: a flat table of absolute paths and nodes.
pub struct FileSystem {
    nodes: Vec<(String, FsNode)>,
}

impl View for FileSystem {
    type V = Map<Seq<char>, NodeV>;

    closed spec fn view(&self) -> Map<Seq<char>, NodeV> {
        map_of(self.nodes@)
    }
}

impl FileSystem {
    /// The filesystem's internal invariant: no key twice, and the map is
    /// well-formed.
    pub closed spec fn inv(&self) -> bool {
        unique_keys(self.nodes@) && map_wf(self@)
    }

    /// A fresh filesystem holding only the root directory.
    pub fn new() -> (fs: FileSystem)
        ensures
            fs.inv(),
            fs@ == Map::<Seq<char>, NodeV>::empty().insert(root(), NodeV::Dir),
    {
        let mut nodes: Vec<(String, FsNode)> = Vec::new();
        let r = String::from_str("/");
        proof {
            reveal_strlit("/");
            assert(r@ =~= root());
        }
        let ghost rv = r@;
        nodes.push((r, FsNode::Dir));
        let fs = FileSystem { nodes };
        proof {
            assert(fs.nodes@.drop_last() =~= Seq::<(String, FsNode)>::empty());
            assert(fs.nodes@.last().0@ == rv);
            assert(rv == root());
            assert(fs.nodes@.last().1@ == NodeV::Dir);
            assert(map_of(fs.nodes@.drop_last()) == Map::<Seq<char>, NodeV>::empty());
            assert(fs@ == map_of(fs.nodes@.drop_last()).insert(
                fs.nodes@.last().0@,
                fs.nodes@.last().1@,
            ));
            assert(fs@ =~= Map::<Seq<char>, NodeV>::empty().insert(root(), NodeV::Dir));
            assert(valid_path(root()));
            assert(forall|k: Seq<char>| #[trigger] fs@.contains_key(k) ==> k == root());
        }
        fs
    }

    /// Index of the pair holding `key`, if any.
    fn find_node(&self, key: &String) -> (r: Option<usize>)
        requires
            unique_keys(self.nodes@),
        ensures
            match r {
                Some(i) => {
                    &&& i < self.nodes@.len()
                    &&& self.nodes@[i as int].0@ == key@
                    &&& self@.contains_key(key@)
                    &&& self@[key@] == self.nodes@[i as int].1@
                },
                None => !self@.contains_key(key@),
            },
    {
        let mut i: usize = 0;
        while i < self.nodes.len()
            invariant
                unique_keys(self.nodes@),
                i <= self.nodes@.len(),
                forall|j: int| 0 <= j < i ==> self.nodes@[j].0@ != key@,
            decreases self.nodes@.len() - i,
        {
            if self.nodes[i].0 == *key {
                proof {
                    lemma_map_of_index(self.nodes@, i as int);
                }
                return Some(i);
            }
            i = i + 1;
        }
        proof {
            lemma_map_of_contains(self.nodes@, key@);
        }
        None
    }

    /// Reads the whole file at `path` as text: the text stored there, or
    /// `IoFailure` when the path is absent or a directory, or `NotUtf8`
    /// when its bytes are not valid text.  No partial content is ever
    /// returned.
    pub fn read_file_content(&self, path: &str) -> (r: Result<String, FsError>)
        requires
            self.inv(),
        ensures
            match (r, read_spec(self@, path@)) {
                (Ok(s), Ok(c)) => s@ == c,
                (Err(e), Err(e2)) => e == e2,
                _ => false,
            },
    {
        let key = path.to_owned();
        match self.find_node(&key) {
            None => Err(FsError::IoFailure),
            Some(i) => match &self.nodes[i].1 {
                FsNode::Dir => Err(FsError::IoFailure),
                FsNode::Text(s) => Ok(s.clone()),
                FsNode::Raw => Err(FsError::NotUtf8),
            },
        }
    }

    /// Overwrites the file at `path` with `content`, creating the file if
    /// absent; fails with `IoFailure` when the path is a directory or its
    /// parent directory does not exist.  The write either fully succeeds
    /// or leaves the filesystem unchanged.
    pub fn write_file_content(&mut self, path: &str, content: &str) -> (r: Result<(), FsError>)
        requires
            old(self).inv(),
        ensures
            final(self).inv(),
            write_allowed(old(self)@, path@) ==> r is Ok && final(self)@ == write_result(
                old(self)@,
                path@,
                content@,
            ),
            !write_allowed(old(self)@, path@) ==> r == Err::<(), FsError>(FsError::IoFailure)
                && final(self)@ == old(self)@,
    {
        self.put_file(path, FsNode::Text(content.to_owned()))
    }

    /// Places a file whose bytes are not valid text at `path`, under the
    /// same conditions as a write; it models what an external program may
    /// leave on disk, and reading it yields `NotUtf8`.
    pub fn place_raw_file(&mut self, path: &str) -> (r: Result<(), FsError>)
        requires
            old(self).inv(),
        ensures
            final(self).inv(),
            write_allowed(old(self)@, path@) ==> r is Ok && final(self)@ == old(self)@.insert(
                path@,
                NodeV::Raw,
            ),
            !write_allowed(old(self)@, path@) ==> r == Err::<(), FsError>(FsError::IoFailure)
                && final(self)@ == old(self)@,
    {
        self.put_file(path, FsNode::Raw)
    }

    /// The state of the walk that looks for the first existing ancestor
    /// of `t`: `ms` holds the chain from `t` down to (excluding) `cur`,
    /// none of whose members exist on `m0`.
    spec fn walk_ok(m0: Map<Seq<char>, NodeV>, t: Seq<char>, cur: Seq<char>, ms: Seq<String>) -> bool {
        &&& valid_path(cur)
        &&& is_ancestor_or_self(cur, t)
        &&& forall|j: int|
            0 <= j < ms.len() ==> valid_path(#[trigger] ms[j]@) && is_ancestor_or_self(ms[j]@, t)
                && !m0.contains_key(ms[j]@)
        &&& forall|j: int| 0 <= j < ms.len() - 1 ==> parent_of(#[trigger] ms[j]@) == ms[j + 1]@
        &&& (ms.len() > 0 ==> ms[0]@ == t && cur == parent_of(ms.last()@) && cur.len()
            < ms.last()@.len())
        &&& (ms.len() == 0 ==> cur == t)
        &&& forall|j1: int, j2: int|
            #![trigger ms[j1], ms[j2]]
            0 <= j1 < j2 < ms.len() ==> ms[j2]@.len() < ms[j1]@.len()
    }

    /// Every ancestor of `t` is either an ancestor of `cur` or on the
    /// collected chain `ms`.
    proof fn lemma_chain_coverage(
        m0: Map<Seq<char>, NodeV>,
        t: Seq<char>,
        cur: Seq<char>,
        ms: Seq<String>,
        q: Seq<char>,
    )
        requires
            Self::walk_ok(m0, t, cur, ms),
            is_ancestor_or_self(q, t),
        ensures
            is_ancestor_or_self(q, cur) || exists|j: int| 0 <= j < ms.len() && #[trigger] ms[j]@
                == q,
        decreases ms.len(),
    {
        if ms.len() == 0 {
        } else if q == t {
            assert(ms[0]@ == q);
        } else {
            let p = parent_of(t);
            let ms2 = ms.skip(1);
            assert(forall|j: int| 0 <= j < ms2.len() ==> ms2[j] == ms[j + 1]);
            assert(cur != t) by {
                assert(ms.last()@.len() <= ms[0]@.len());
            }
            assert(is_ancestor_or_self(cur, p));
            if ms.len() == 1 {
                assert(ms2.len() == 0);
                assert(cur == parent_of(ms.last()@));
            } else {
                assert(ms2[0]@ == ms[1]@);
                assert(parent_of(ms[0]@) == ms[1]@);
                assert(ms2.last() == ms.last());
            }
            assert(Self::walk_ok(m0, p, cur, ms2));
            Self::lemma_chain_coverage(m0, p, cur, ms2, q);
            if exists|j: int| 0 <= j < ms2.len() && #[trigger] ms2[j]@ == q {
                let j = choose|j: int| 0 <= j < ms2.len() && #[trigger] ms2[j]@ == q;
                assert(ms[j + 1]@ == q);
            }
        }
    }

    /// After the missing chain has been inserted as directories, the new
    /// map is exactly `created_map`, it is well-formed, and nothing
    /// blocked the creation.
    proof fn lemma_create_finish(
        m0: Map<Seq<char>, NodeV>,
        t: Seq<char>,
        cur: Seq<char>,
        ms: Seq<String>,
        m1: Map<Seq<char>, NodeV>,
    )
        requires
            map_wf(m0),
            Self::walk_ok(m0, t, cur, ms),
            !m0.contains_key(t),
            m0.contains_key(cur),
            m0[cur] is Dir,
            forall|q: Seq<char>|
                m0.contains_key(q) ==> #[trigger] m1.contains_key(q) && m1[q] == m0[q],
            forall|j: int|
                0 <= j < ms.len() ==> m1.contains_key(#[trigger] ms[j]@) && m1[ms[j]@]
                    == NodeV::Dir,
            forall|q: Seq<char>|
                #[trigger] m1.contains_key(q) ==> m0.contains_key(q) || exists|j: int|
                    0 <= j < ms.len() && #[trigger] ms[j]@ == q,
        ensures
            !create_blocked(m0, t),
            m1 =~= created_map(m0, t),
            map_wf(m1),
    {
        assert(!create_blocked(m0, t)) by {
            assert forall|q: Seq<char>|
                is_ancestor_or_self(q, t) && #[trigger] m0.contains_key(q) implies m0[q]
                is Dir by {
                Self::lemma_chain_coverage(m0, t, cur, ms, q);
                if is_ancestor_or_self(q, cur) {
                    lemma_wf_ancestor(m0, q, cur);
                } else {
                    let j = choose|j: int| 0 <= j < ms.len() && #[trigger] ms[j]@ == q;
                    assert(!m0.contains_key(ms[j]@));
                }
            }
        }
        assert forall|q: Seq<char>| #[trigger] m1.contains_key(q) implies created_map(
            m0,
            t,
        ).contains_key(q) && m1[q] == created_map(m0, t)[q] by {
            if !m0.contains_key(q) {
                let j = choose|j: int| 0 <= j < ms.len() && #[trigger] ms[j]@ == q;
                assert(is_ancestor_or_self(q, t));
                assert(m1[ms[j]@] == NodeV::Dir);
            }
        }
        assert forall|q: Seq<char>| created_map(m0, t).contains_key(q) implies #[trigger] m1
            .contains_key(q) by {
            if !m0.contains_key(q) {
                assert(is_ancestor_or_self(q, t));
                Self::lemma_chain_coverage(m0, t, cur, ms, q);
                if is_ancestor_or_self(q, cur) {
                    lemma_wf_ancestor(m0, q, cur);
                } else {
                    let j = choose|j: int| 0 <= j < ms.len() && #[trigger] ms[j]@ == q;
                    assert(m1.contains_key(ms[j]@));
                }
            }
        }
        assert(m1 =~= created_map(m0, t));
        assert(map_wf(m1)) by {
            assert(m1.contains_key(root()) && m1[root()] is Dir);
            assert forall|q: Seq<char>| #[trigger] m1.contains_key(q) implies valid_path(q) by {
                if !m0.contains_key(q) {
                    let j = choose|j: int| 0 <= j < ms.len() && #[trigger] ms[j]@ == q;
                    assert(valid_path(ms[j]@));
                }
            }
            assert forall|q: Seq<char>| #[trigger] m1.contains_key(q) && q.len() > 1 implies m1
                .contains_key(parent_of(q)) && m1[parent_of(q)] is Dir by {
                if m0.contains_key(q) {
                    assert(m0.contains_key(parent_of(q)) && m0[parent_of(q)] is Dir);
                } else {
                    let j = choose|j: int| 0 <= j < ms.len() && #[trigger] ms[j]@ == q;
                    if j < ms.len() - 1 {
                        assert(parent_of(q) == ms[j + 1]@);
                        assert(m1[ms[j + 1]@] == NodeV::Dir);
                    } else {
                        assert(parent_of(q) == cur);
                        assert(m0[cur] is Dir);
                    }
                }
            }
        }
    }

    /// Creates the directory `name` under `base`, creating every missing
    /// ancestor on the way, and returns the new absolute path.  Fails
    /// with `AlreadyExists` exactly when the target already exists, and
    /// with `IoFailure` when the inputs are not a valid path and name or
    /// an existing ancestor of the target is not a directory.
    #[verifier::loop_isolation(false)]
    #[verifier::rlimit(100)]
    pub fn create_directory(&mut self, base: &str, name: &str) -> (r: Result<String, FsError>)
        requires
            old(self).inv(),
        ensures
            final(self).inv(),
            final(self)@ == create_spec(old(self)@, base@, name@).0,
            match (r, create_spec(old(self)@, base@, name@).1) {
                (Ok(s), Ok(t)) => s@ == t,
                (Err(e), Err(e2)) => e == e2,
                _ => false,
            },
    {
        if !is_valid_path(base) || !is_valid_name(name) {
            return Err(FsError::IoFailure);
        }
        let target = join_path(base, name);
        proof {
            lemma_join_facts(base@, name@);
        }
        if self.find_node(&target).is_some() {
            return Err(FsError::AlreadyExists);
        }
        let ghost m0 = self@;
        let ghost t = target@;
        let mut cur = target.clone();
        let mut missing: Vec<String> = Vec::new();
        let mut found = self.find_node(&cur);
        while found.is_none()
            invariant
                Self::walk_ok(m0, t, cur@, missing@),
                match found {
                    Some(i) => {
                        &&& (i as int) < self.nodes@.len()
                        &&& self.nodes@[i as int].0@ == cur@
                        &&& m0.contains_key(cur@)
                        &&& m0[cur@] == self.nodes@[i as int].1@
                    },
                    None => !m0.contains_key(cur@),
                },
            decreases cur@.len(),
        {
            let ghost cur0 = cur@;
            let ghost missing0 = missing@;
            proof {
                assert(cur@.len() > 1) by {
                    if cur@.len() == 1 {
                        assert(cur@ =~= root());
                    }
                };
                lemma_parent_of_valid(cur@);
                lemma_parent_ancestor(cur@, t);
            }
            missing.push(cur.clone());
            let next = parent_path(cur.as_str());
            cur = next;
            found = self.find_node(&cur);
            proof {
                assert(missing@.last()@ == cur0);
                assert(missing@.drop_last() =~= missing0);
                assert(forall|j: int| 0 <= j < missing0.len() ==> missing@[j] == missing0[j]);
            }
        }
        // `cur` is the first existing ancestor; everything below it is missing.
        let anchor = found.unwrap();
        let node_is_dir = match &self.nodes[anchor].1 {
            FsNode::Dir => true,
            _ => false,
        };
        if !node_is_dir {
            proof {
                assert(create_blocked(m0, t)) by {
                    assert(is_ancestor_or_self(cur@, t) && m0.contains_key(cur@) && !(m0[cur@]
                        is Dir));
                }
            }
            return Err(FsError::IoFailure);
        }
        proof {
            assert(m0[cur@] is Dir);
        }
        let mut k = missing.len();
        while k > 0
            invariant
                k <= missing@.len(),
                unique_keys(self.nodes@),
                forall|q: Seq<char>|
                    m0.contains_key(q) ==> #[trigger] self@.contains_key(q) && self@[q] == m0[q],
                forall|j: int|
                    k <= j < missing@.len() ==> self@.contains_key(#[trigger] missing@[j]@)
                        && self@[missing@[j]@] == NodeV::Dir,
                forall|q: Seq<char>|
                    #[trigger] self@.contains_key(q) ==> m0.contains_key(q) || exists|j: int|
                        k <= j < missing@.len() && #[trigger] missing@[j]@ == q,
            decreases k,
        {
            k = k - 1;
            let ky = missing[k].clone();
            let ghost prev = self.nodes@;
            proof {
                lemma_map_of_contains(prev, ky@);
                assert(!self@.contains_key(ky@)) by {
                    if self@.contains_key(ky@) {
                        assert(!m0.contains_key(missing@[k as int]@));
                        let j = choose|j: int|
                            k + 1 <= j < missing@.len() && #[trigger] missing@[j]@ == ky@;
                        assert(missing@[j]@.len() < missing@[k as int]@.len());
                    }
                }
            }
            self.nodes.push((ky, FsNode::Dir));
            proof {
                assert(self.nodes@.drop_last() =~= prev);
                assert(self@ == map_of(prev).insert(missing@[k as int]@, NodeV::Dir));
                assert(unique_keys(self.nodes@)) by {
                    assert(forall|a: int| 0 <= a < prev.len() ==> self.nodes@[a] == prev[a]);
                    assert(forall|a: int|
                        0 <= a < prev.len() ==> #[trigger] prev[a].0@ != missing@[k as int]@);
                }
            }
        }
        proof {
            Self::lemma_create_finish(m0, t, cur@, missing@, self@);
            assert(self@ == created_map(m0, t));
        }
        Ok(target)
    }

    /// Lists the immediate children of the directory at `path`: exactly
    /// one entry for each child, each carrying the child's absolute
    /// path, its final component as its name, and whether it is a
    /// directory.  The contract promises set equality only; callers
    /// must not depend on the order (the model happens to yield
    /// creation order).  Fails with `IoFailure` exactly when `path` is
    /// not an existing directory; it never fails per entry.
    #[verifier::loop_isolation(false)]
    pub fn list_directory(&self, path: &str) -> (r: Result<Vec<DirEntry>, FsError>)
        requires
            self.inv(),
        ensures
            match r {
                Ok(entries) => {
                    &&& self@.contains_key(path@) && self@[path@] is Dir
                    &&& forall|i: int|
                        #![trigger entries[i]]
                        0 <= i < entries.len() ==> self@.contains_key(entries[i]@.path)
                            && is_child_of(entries[i]@.path, path@) && entries[i]@.name
                            == base_name(entries[i]@.path) && entries[i]@.is_dir == (
                        self@[entries[i]@.path] is Dir)
                    &&& forall|k: Seq<char>|
                        #[trigger] self@.contains_key(k) && is_child_of(k, path@)
                            ==> exists|i: int|
                            0 <= i < entries.len() && #[trigger] entries[i]@.path == k
                    &&& forall|i1: int, i2: int|
                        #![trigger entries[i1], entries[i2]]
                        0 <= i1 < i2 < entries.len() ==> entries[i1]@.path != entries[i2]@.path
                },
                Err(e) => e == FsError::IoFailure && !(self@.contains_key(path@) && self@[path@]
                    is Dir),
            },
    {
        let key = path.to_owned();
        let found = self.find_node(&key);
        let found_dir = match found {
            Some(i) => match &self.nodes[i].1 {
                FsNode::Dir => true,
                _ => false,
            },
            None => false,
        };
        if !found_dir {
            return Err(FsError::IoFailure);
        }
        let mut out: Vec<DirEntry> = Vec::new();
        let mut j: usize = 0;
        while j < self.nodes.len()
            invariant
                j <= self.nodes@.len(),
                forall|i: int|
                    #![trigger out@[i]]
                    0 <= i < out@.len() ==> self@.contains_key(out@[i]@.path) && is_child_of(
                        out@[i]@.path,
                        path@,
                    ) && out@[i]@.name == base_name(out@[i]@.path) && out@[i]@.is_dir == (
                    self@[out@[i]@.path] is Dir),
                forall|i: int|
                    #![trigger out@[i]]
                    0 <= i < out@.len() ==> exists|a: int|
                        0 <= a < j && #[trigger] self.nodes@[a].0@ == out@[i]@.path,
                forall|a: int|
                    0 <= a < j && is_child_of(#[trigger] self.nodes@[a].0@, path@)
                        ==> exists|i: int|
                        0 <= i < out@.len() && #[trigger] out@[i]@.path == self.nodes@[a].0@,
                forall|i1: int, i2: int|
                    #![trigger out@[i1], out@[i2]]
                    0 <= i1 < i2 < out@.len() ==> out@[i1]@.path != out@[i2]@.path,
            decreases self.nodes@.len() - j,
        {
            proof {
                lemma_map_of_index(self.nodes@, j as int);
            }
            let node_path_len = self.nodes[j].0.as_str().unicode_len();
            let par = parent_path(self.nodes[j].0.as_str());
            let ghost out0 = out@;
            if node_path_len > 1 && par == key {
                let name = file_name_of(self.nodes[j].0.as_str());
                let entry_is_dir = match &self.nodes[j].1 {
                    FsNode::Dir => true,
                    _ => false,
                };
                let e = DirEntry { path: self.nodes[j].0.clone(), is_dir: entry_is_dir, name };
                out.push(e);
                proof {
                    assert(out@.last()@.path == self.nodes@[j as int].0@);
                    assert(forall|i: int| 0 <= i < out0.len() ==> out@[i] == out0[i]);
                }
            } else {
                proof {
                    assert(!is_child_of(self.nodes@[j as int].0@, path@));
                }
            }
            j = j + 1;
        }
        proof {
            assert forall|k: Seq<char>|
                #[trigger] self@.contains_key(k) && is_child_of(k, path@) implies exists|i: int|
                0 <= i < out@.len() && #[trigger] out@[i]@.path == k by {
                lemma_map_of_contains(self.nodes@, k);
                let a = choose|a: int|
                    0 <= a < self.nodes@.len() && #[trigger] self.nodes@[a].0@ == k;
                assert(is_child_of(self.nodes@[a].0@, path@));
            }
        }
        Ok(out)
    }

    /// Stores `node` (never a directory) at `path` where a write is
    /// allowed, and fails with `IoFailure` elsewhere.
    fn put_file(&mut self, path: &str, node: FsNode) -> (r: Result<(), FsError>)
        requires
            old(self).inv(),
            !(node is Dir),
        ensures
            final(self).inv(),
            write_allowed(old(self)@, path@) ==> r is Ok && final(self)@ == old(self)@.insert(
                path@,
                node@,
            ),
            !write_allowed(old(self)@, path@) ==> r == Err::<(), FsError>(FsError::IoFailure)
                && final(self)@ == old(self)@,
    {
        let key = path.to_owned();
        match self.find_node(&key) {
            Some(i) => {
                match &self.nodes[i].1 {
                    FsNode::Dir => Err(FsError::IoFailure),
                    _ => {
                        proof {
                            lemma_map_of_update(self.nodes@, i as int, node);
                        }
                        self.nodes[i].1 = node;
                        proof {
                            assert(self@ =~= old(self)@.insert(path@, node@));
                            assert(forall|k: Seq<char>| #[trigger] self@.contains_key(k)
                                <==> old(self)@.contains_key(k));
                            assert(forall|k: Seq<char>|
                                #[trigger] self@.contains_key(k) && k != path@
                                    ==> self@[k] == old(self)@[k]);
                        }
                        Ok(())
                    },
                }
            },
            None => {
                if !is_valid_path(path) {
                    return Err(FsError::IoFailure);
                }
                let n = path.unicode_len();
                if n <= 1 {
                    proof {
                        assert(!write_allowed(old(self)@, path@));
                    }
                    return Err(FsError::IoFailure);
                }
                let par = parent_path(path);
                match self.find_node(&par) {
                    Some(pi) => {
                        match &self.nodes[pi].1 {
                            FsNode::Dir => {
                                proof {
                                    lemma_map_of_contains(self.nodes@, key@);
                                }
                                self.nodes.push((key, node));
                                proof {
                                    assert(self.nodes@.drop_last() =~= old(self).nodes@);
                                    assert(self@ =~= old(self)@.insert(path@, node@));
                                    assert(unique_keys(self.nodes@)) by {
                                        assert(forall|a: int|
                                            0 <= a < old(self).nodes@.len()
                                                ==> self.nodes@[a] == old(self).nodes@[a]);
                                    }
                                }
                                Ok(())
                            },
                            _ => Err(FsError::IoFailure),
                        }
                    },
                    None => Err(FsError::IoFailure),
                }
            },
        }
    }
}

} // verus!
