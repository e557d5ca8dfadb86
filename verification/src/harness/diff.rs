//! The comparison of two file trees, and trees kept for comparison.
use crate::harness::ops::{entry_views, Entry, EntryView, FsOps};
use crate::harness::paths::{
    first_slash, is_name, join, join_path, lemma_first_slash, lemma_parts_join, parts,
};
use vstd::prelude::*;

verus! {

/// The first thing in which two trees differ.
#[derive(Debug, Clone, PartialEq, Eq)]
pub enum Divergence {
    /// Two directories list different entries.
    Dir { path: String, got: Vec<Entry>, want: Vec<Entry> },
    /// Two files have different contents, of these lengths.
    File { path: String, got_len: usize, want_len: usize },
}

/// What a divergence says.
pub enum DivergenceView {
    Dir { path: Seq<char>, got: Seq<EntryView>, want: Seq<EntryView> },
    File { path: Seq<char>, got_len: nat, want_len: nat },
}

impl Divergence {
    pub open spec fn view(&self) -> DivergenceView {
        match *self {
            Divergence::Dir { path, got, want } => DivergenceView::Dir {
                path: path@,
                got: entry_views(got@),
                want: entry_views(want@),
            },
            Divergence::File { path, got_len, want_len } => DivergenceView::File {
                path: path@,
                got_len: got_len as nat,
                want_len: want_len as nat,
            },
        }
    }
}

/// The tree below the directory `dir` can be walked, and is less than `n` deep: each entry
/// is a directory that can be walked, or a file.
pub open spec fn walkable<F: FsOps>(fs: F, dir: Seq<char>, n: nat) -> bool
    decreases n,
{
    &&& n > 0
    &&& fs.dir_at(dir) is Some
    &&& forall|i: int|
        0 <= i < (fs.dir_at(dir)->0).len() ==> entry_walkable(
            fs,
            dir,
            #[trigger] (fs.dir_at(dir)->0)[i],
            (n - 1) as nat,
        )
}

/// The entry `e` of the directory `dir` can be walked.
pub open spec fn entry_walkable<F: FsOps>(fs: F, dir: Seq<char>, e: EntryView, n: nat) -> bool
    decreases n,
{
    let child = join(dir, e.name);
    if e.is_dir {
        n > 0 && fs.dir_at(child) is Some && forall|i: int|
            0 <= i < (fs.dir_at(child)->0).len() ==> entry_walkable(
                fs,
                child,
                #[trigger] (fs.dir_at(child)->0)[i],
                (n - 1) as nat,
            )
    } else {
        fs.file_at(child) is Some
    }
}

/// The root of every tree.
pub open spec fn root() -> Seq<char> {
    seq!['/']
}

/// The whole tree can be walked.
pub open spec fn finite<F: FsOps>(fs: F) -> bool {
    exists|n: nat| #[trigger] walkable(fs, root(), n)
}

/// A depth that the tree does not reach.
pub open spec fn depth_of<F: FsOps>(fs: F) -> nat {
    choose|n: nat| #[trigger] walkable(fs, root(), n)
}

/// The first divergence below `dir`: in its list of entries, or else in the first entry
/// that has one.
pub open spec fn first_divergence<A: FsOps, B: FsOps>(
    a: A,
    b: B,
    dir: Seq<char>,
    n: nat,
) -> Option<DivergenceView>
    decreases n, 1nat, 0nat,
{
    let got = a.dir_at(dir)->0;
    let want = b.dir_at(dir)->0;
    if n == 0 {
        None
    } else if got != want {
        Some(DivergenceView::Dir { path: dir, got, want })
    } else {
        first_in_entries(a, b, dir, got, (n - 1) as nat)
    }
}

/// The first divergence in those entries of `dir`.
pub open spec fn first_in_entries<A: FsOps, B: FsOps>(
    a: A,
    b: B,
    dir: Seq<char>,
    es: Seq<EntryView>,
    n: nat,
) -> Option<DivergenceView>
    decreases n, 2nat, es.len(),
{
    if es.len() == 0 {
        None
    } else {
        let d = entry_divergence(a, b, dir, es[0], n);
        if d is Some {
            d
        } else {
            first_in_entries(a, b, dir, es.skip(1), n)
        }
    }
}

/// The first divergence in one entry of `dir`.
pub open spec fn entry_divergence<A: FsOps, B: FsOps>(
    a: A,
    b: B,
    dir: Seq<char>,
    e: EntryView,
    n: nat,
) -> Option<DivergenceView>
    decreases n, 1nat, 1nat,
{
    let child = join(dir, e.name);
    if e.is_dir {
        first_divergence(a, b, child, n)
    } else {
        let got = a.file_at(child)->0;
        let want = b.file_at(child)->0;
        if got != want {
            Some(
                DivergenceView::File { path: child, got_len: got.len(), want_len: want.len() },
            )
        } else {
            None
        }
    }
}

/// Two vectors of bytes hold the same.
fn same_bytes(a: &Vec<u8>, b: &Vec<u8>) -> (r: bool)
    ensures
        r == (a@ == b@),
{
    if a.len() != b.len() {
        return false;
    }
    let mut i: usize = 0;
    while i < a.len()
        invariant
            i <= a@.len(),
            a@.len() == b@.len(),
            forall|j: int| 0 <= j < i ==> a@[j] == b@[j],
        decreases a@.len() - i,
    {
        if a[i] != b[i] {
            return false;
        }
        i = i + 1;
    }
    assert(a@ =~= b@);
    true
}

/// Two lists of entries say the same.
fn same_entries(a: &Vec<Entry>, b: &Vec<Entry>) -> (r: bool)
    ensures
        r == (entry_views(a@) == entry_views(b@)),
{
    if a.len() != b.len() {
        assert(entry_views(a@).len() != entry_views(b@).len());
        return false;
    }
    let mut i: usize = 0;
    while i < a.len()
        invariant
            i <= a@.len(),
            a@.len() == b@.len(),
            forall|j: int| 0 <= j < i ==> (#[trigger] a@[j])@ == b@[j]@,
        decreases a@.len() - i,
    {
        if a[i].name != b[i].name || a[i].size != b[i].size || a[i].is_dir != b[i].is_dir {
            assert(entry_views(a@)[i as int] == a@[i as int]@);
            assert(entry_views(b@)[i as int] == b@[i as int]@);
            return false;
        }
        i = i + 1;
    }
    assert(entry_views(a@) =~= entry_views(b@));
    true
}

/// Walks both trees from their root and compares the lists of entries and the contents of
/// the files. Gives the first divergence: depth first, in the order of the entries.
pub fn compare_read<A: FsOps, B: FsOps>(a: &A, b: &B) -> (r: Result<(), Divergence>)
    requires
        finite(*a),
        finite(*b),
    ensures
        match r {
            Ok(()) => first_divergence(*a, *b, root(), depth_of(*a)) is None,
            Err(d) => first_divergence(*a, *b, root(), depth_of(*a)) == Some(d@),
        },
{
    proof {
        reveal_strlit("/");
        assert("/"@ =~= root());
    }
    walk(a, b, "/", Ghost(depth_of(*a)), Ghost(depth_of(*b)))
}

/// Compares the trees below `dir`.
fn walk<A: FsOps, B: FsOps>(
    a: &A,
    b: &B,
    dir: &str,
    Ghost(n): Ghost<nat>,
    Ghost(m): Ghost<nat>,
) -> (r: Result<(), Divergence>)
    requires
        walkable(*a, dir@, n),
        walkable(*b, dir@, m),
    ensures
        match r {
            Ok(()) => first_divergence(*a, *b, dir@, n) is None,
            Err(d) => first_divergence(*a, *b, dir@, n) == Some(d@),
        },
    decreases n,
{
    let ea = a.read_dir(dir);
    let eb = b.read_dir(dir);
    let ghost es = entry_views(ea@);
    if !same_entries(&ea, &eb) {
        return Err(Divergence::Dir { path: dir.to_owned(), got: ea, want: eb });
    }
    let ghost d = first_divergence(*a, *b, dir@, n);
    let ghost k = (n - 1) as nat;
    assert(es.skip(0) =~= es);
    let mut i: usize = 0;
    while i < ea.len()
        invariant
            i <= ea@.len(),
            n > 0,
            k == n - 1,
            walkable(*a, dir@, n),
            walkable(*b, dir@, m),
            es == entry_views(ea@),
            es == a.dir_at(dir@)->0,
            es == b.dir_at(dir@)->0,
            d == first_divergence(*a, *b, dir@, n),
            d == first_in_entries(*a, *b, dir@, es.skip(i as int), k),
        decreases ea@.len() - i,
    {
        let e = &ea[i];
        let child = join_path(dir, &e.name);
        let ghost ev = es[i as int];
        proof {
            assert(ev == e@);
            assert(entry_walkable(*a, dir@, (a.dir_at(dir@)->0)[i as int], k));
            assert(entry_walkable(*b, dir@, (b.dir_at(dir@)->0)[i as int], (m - 1) as nat));
            assert(es.skip(i as int)[0] == ev);
            assert(es.skip(i as int).skip(1) =~= es.skip(i + 1));
            assert(d == (if entry_divergence(*a, *b, dir@, ev, k) is Some {
                entry_divergence(*a, *b, dir@, ev, k)
            } else {
                first_in_entries(*a, *b, dir@, es.skip(i + 1), k)
            }));
        }
        if e.is_dir {
            proof {
                lemma_walkable_child(*a, dir@, ev, k);
                lemma_walkable_child(*b, dir@, ev, (m - 1) as nat);
            }
            let r = walk(a, b, child.as_str(), Ghost(k), Ghost((m - 1) as nat));
            match r {
                Ok(()) => {},
                Err(x) => {
                    assert(entry_divergence(*a, *b, dir@, ev, k) == Some(x@));
                    return Err(x);
                },
            }
        } else {
            let fa = a.read_file(child.as_str());
            let fb = b.read_file(child.as_str());
            if !same_bytes(&fa, &fb) {
                let x = Divergence::File { path: child, got_len: fa.len(), want_len: fb.len() };
                assert(entry_divergence(*a, *b, dir@, ev, k) == Some(x@));
                return Err(x);
            }
        }
        i = i + 1;
    }
    assert(es.skip(i as int) =~= Seq::<EntryView>::empty());
    Ok(())
}

/// A directory that can be walked as an entry can be walked.
proof fn lemma_walkable_child<F: FsOps>(fs: F, dir: Seq<char>, e: EntryView, n: nat)
    requires
        entry_walkable(fs, dir, e, n),
        e.is_dir,
    ensures
        walkable(fs, join(dir, e.name), n),
{
}

/// A file tree in memory.
pub enum Node {
    File(Vec<u8>),
    Dir(Vec<(Entry, Node)>),
}

/// The position of the first of `kids` with that name, or their number.
pub open spec fn kid_pos(kids: Seq<(Entry, Node)>, name: Seq<char>) -> nat
    decreases kids.len(),
{
    if kids.len() == 0 || kids[0].0.name@ == name {
        0
    } else {
        1 + kid_pos(kids.skip(1), name)
    }
}

/// What `kid_pos` is.
proof fn lemma_kid_pos(kids: Seq<(Entry, Node)>, name: Seq<char>, k: int)
    requires
        0 <= k <= kids.len(),
        forall|j: int| 0 <= j < k ==> (#[trigger] kids[j]).0.name@ != name,
        k < kids.len() ==> kids[k].0.name@ == name,
    ensures
        kid_pos(kids, name) == k,
    decreases kids.len(),
{
    if kids.len() > 0 && k > 0 {
        assert(kids[0].0.name@ != name);
        let t = kids.skip(1);
        assert forall|j: int| 0 <= j < k - 1 implies (#[trigger] t[j]).0.name@ != name by {
            assert(t[j] == kids[j + 1]);
        }
        lemma_kid_pos(t, name, k - 1);
    }
}

/// The node under `node` with that name.
pub open spec fn kid(node: Node, name: Seq<char>) -> Option<Node> {
    match node {
        Node::Dir(kids) => {
            let k = kid_pos(kids@, name);
            if k < kids@.len() {
                Some(kids@[k as int].1)
            } else {
                None
            }
        },
        Node::File(_) => None,
    }
}

/// The node under `node` that the names `ps` lead to.
pub open spec fn node_at(node: Node, ps: Seq<Seq<char>>) -> Option<Node>
    decreases ps.len(),
{
    if ps.len() == 0 {
        Some(node)
    } else {
        match kid(node, ps[0]) {
            Some(next) => node_at(next, ps.skip(1)),
            None => None,
        }
    }
}

/// What the entries of a directory node say.
pub open spec fn kid_views(kids: Seq<(Entry, Node)>) -> Seq<EntryView> {
    kids.map_values(|k: (Entry, Node)| k.0@)
}

/// A file tree in memory, as a file system.
pub struct Captured(Node);

impl Captured {
    /// The tree.
    pub closed spec fn view(&self) -> Node {
        self.0
    }

    /// A tree that was built by hand.
    pub fn literal(node: Node) -> (r: Self)
        ensures
            r@ == node,
    {
        Captured(node)
    }

    /// A copy of the tree of a file system.
    pub fn capture<F: FsOps>(fs: &F) -> (r: Self)
        requires
            finite(*fs),
        ensures
            captured_from(*fs, root(), depth_of(*fs), r@),
    {
        proof {
            reveal_strlit("/");
            assert("/"@ =~= root());
        }
        Captured(Self::capture_dir(fs, "/", Ghost(depth_of(*fs))))
    }

    fn capture_dir<F: FsOps>(fs: &F, path: &str, Ghost(n): Ghost<nat>) -> (r: Node)
        requires
            walkable(*fs, path@, n),
        ensures
            captured_from(*fs, path@, n, r),
        decreases n,
    {
        let entries = fs.read_dir(path);
        let ghost es = entry_views(entries@);
        let ghost k = (n - 1) as nat;
        let mut kids: Vec<(Entry, Node)> = Vec::new();
        let mut i: usize = 0;
        while i < entries.len()
            invariant
                i <= entries@.len(),
                n > 0,
                k == n - 1,
                walkable(*fs, path@, n),
                es == entry_views(entries@),
                es == fs.dir_at(path@)->0,
                kids@.len() == i,
                forall|j: int|
                    0 <= j < i ==> kid_captured(*fs, path@, k, es[j], #[trigger] kids@[j]),
            decreases entries@.len() - i,
        {
            let e = &entries[i];
            let child = join_path(path, &e.name);
            let ghost ev = es[i as int];
            proof {
                assert(ev == e@);
                assert(entry_walkable(*fs, path@, (fs.dir_at(path@)->0)[i as int], k));
            }
            let node = if e.is_dir {
                proof {
                    lemma_walkable_child(*fs, path@, ev, k);
                }
                Self::capture_dir(fs, child.as_str(), Ghost(k))
            } else {
                Node::File(fs.read_file(child.as_str()))
            };
            let entry = Entry { name: e.name.clone(), size: e.size, is_dir: e.is_dir };
            kids.push((entry, node));
            i = i + 1;
        }
        Node::Dir(kids)
    }

    /// The node at a path.
    fn lookup(&self, path: &str) -> (r: &Node)
        requires
            node_at(self@, parts(path@)) is Some,
        ensures
            *r == node_at(self@, parts(path@))->0,
    {
        let ghost whole = node_at(self@, parts(path@));
        let n: usize = path.unicode_len();
        let mut cur: &Node = &self.0;
        let mut i: usize = 0;
        assert(path@.skip(0) =~= path@);
        while i < n
            invariant
                i <= n,
                n == path@.len(),
                whole is Some,
                node_at(*cur, parts(path@.skip(i as int))) == whole,
            decreases n - i,
        {
            let ghost s = path@.skip(i as int);
            if path.get_char(i) == '/' {
                assert(s.skip(1) =~= path@.skip(i + 1));
                i = i + 1;
            } else {
                let mut k: usize = i;
                while k < n && path.get_char(k) != '/'
                    invariant
                        i <= k <= n,
                        n == path@.len(),
                        s == path@.skip(i as int),
                        forall|j: int| 0 <= j < k - i ==> (#[trigger] s[j]) != '/',
                    decreases n - k,
                {
                    k = k + 1;
                }
                proof {
                    lemma_first_slash(s);
                    let f = first_slash(s) as int;
                    if f < k - i {
                        assert(s[f] != '/');
                    } else if k - i < f {
                        assert(s[k - i] != '/');
                    }
                    assert(s.take(f) =~= path@.subrange(i as int, k as int));
                    assert(s.skip(f) =~= path@.skip(k as int));
                    assert(parts(s)[0] =~= s.take(f));
                    assert(parts(s).skip(1) =~= parts(s.skip(f)));
                }
                let part: String = path.substring_char(i, k).to_owned();
                match cur {
                    Node::Dir(kids) => {
                        let j: usize = Self::find_kid(kids, &part);
                        cur = &kids[j].1;
                    },
                    Node::File(_) => {},
                }
                i = k;
            }
        }
        assert(path@.skip(i as int) =~= Seq::<char>::empty());
        cur
    }

    /// The position of the first of `kids` with that name.
    fn find_kid(kids: &Vec<(Entry, Node)>, name: &String) -> (r: usize)
        requires
            kid_pos(kids@, name@) < kids@.len(),
        ensures
            r == kid_pos(kids@, name@),
            r < kids@.len(),
    {
        let mut j: usize = 0;
        while j < kids.len() && kids[j].0.name != *name
            invariant
                j <= kids@.len(),
                forall|i: int| 0 <= i < j ==> (#[trigger] kids@[i]).0.name@ != name@,
            decreases kids@.len() - j,
        {
            j = j + 1;
        }
        proof {
            lemma_kid_pos(kids@, name@, j as int);
        }
        j
    }
}

impl FsOps for Captured {
    open spec fn file_at(&self, path: Seq<char>) -> Option<Seq<u8>> {
        match node_at(self@, parts(path)) {
            Some(Node::File(bytes)) => Some(bytes@),
            _ => None,
        }
    }

    open spec fn dir_at(&self, path: Seq<char>) -> Option<Seq<EntryView>> {
        match node_at(self@, parts(path)) {
            Some(Node::Dir(kids)) => Some(kid_views(kids@)),
            _ => None,
        }
    }

    fn read_file(&self, path: &str) -> (r: Vec<u8>) {
        let mut r: Vec<u8> = Vec::new();
        match self.lookup(path) {
            Node::File(bytes) => {
                let mut i: usize = 0;
                while i < bytes.len()
                    invariant
                        i <= bytes@.len(),
                        r@ == bytes@.take(i as int),
                    decreases bytes@.len() - i,
                {
                    r.push(bytes[i]);
                    i = i + 1;
                    assert(r@ =~= bytes@.take(i as int));
                }
                assert(r@ =~= bytes@);
            },
            Node::Dir(_) => {},
        }
        r
    }

    fn read_dir(&self, path: &str) -> (r: Vec<Entry>) {
        let mut r: Vec<Entry> = Vec::new();
        match self.lookup(path) {
            Node::Dir(kids) => {
                let mut i: usize = 0;
                while i < kids.len()
                    invariant
                        i <= kids@.len(),
                        r@.len() == i,
                        forall|j: int| 0 <= j < i ==> (#[trigger] r@[j])@ == kids@[j].0@,
                    decreases kids@.len() - i,
                {
                    let e = &kids[i].0;
                    r.push(Entry { name: e.name.clone(), size: e.size, is_dir: e.is_dir });
                    i = i + 1;
                }
                assert(entry_views(r@) =~= kid_views(kids@));
            },
            Node::File(_) => {},
        }
        r
    }
}

/// `node` is a copy of the tree of `fs` below `path`.
pub open spec fn captured_from<F: FsOps>(fs: F, path: Seq<char>, n: nat, node: Node) -> bool
    decreases n, 1nat,
{
    match node {
        Node::Dir(kids) => {
            &&& n > 0
            &&& fs.dir_at(path) is Some
            &&& kids@.len() == (fs.dir_at(path)->0).len()
            &&& forall|i: int|
                0 <= i < kids@.len() ==> kid_captured(
                    fs,
                    path,
                    (n - 1) as nat,
                    (fs.dir_at(path)->0)[i],
                    #[trigger] kids@[i],
                )
        },
        Node::File(_) => false,
    }
}

/// `k` is a copy of the entry `e` of the directory `path`.
pub open spec fn kid_captured<F: FsOps>(
    fs: F,
    path: Seq<char>,
    n: nat,
    e: EntryView,
    k: (Entry, Node),
) -> bool
    decreases n, 2nat,
{
    &&& k.0@ == e
    &&& if e.is_dir {
        captured_from(fs, join(path, e.name), n, k.1)
    } else {
        match k.1 {
            Node::File(bytes) => fs.file_at(join(path, e.name)) == Some(bytes@),
            Node::Dir(_) => false,
        }
    }
}

/// Below `dir` both trees list the same entries and hold the same files.
pub open spec fn alike<A: FsOps, B: FsOps>(a: A, b: B, dir: Seq<char>, n: nat) -> bool
    decreases n, 1nat,
{
    n > 0 ==> {
        &&& a.dir_at(dir)->0 == b.dir_at(dir)->0
        &&& forall|i: int|
            0 <= i < (a.dir_at(dir)->0).len() ==> entry_alike(
                a,
                b,
                dir,
                #[trigger] (a.dir_at(dir)->0)[i],
                (n - 1) as nat,
            )
    }
}

/// In both trees the entry `e` of `dir` holds the same.
pub open spec fn entry_alike<A: FsOps, B: FsOps>(
    a: A,
    b: B,
    dir: Seq<char>,
    e: EntryView,
    n: nat,
) -> bool
    decreases n, 2nat,
{
    let child = join(dir, e.name);
    if e.is_dir {
        alike(a, b, child, n)
    } else {
        a.file_at(child)->0 == b.file_at(child)->0
    }
}

/// There is no divergence exactly if the trees agree everywhere.
pub proof fn no_divergence_means_alike<A: FsOps, B: FsOps>(a: A, b: B, dir: Seq<char>, n: nat)
    ensures
        first_divergence(a, b, dir, n) is None <==> alike(a, b, dir, n),
    decreases n, 1nat, 0nat,
{
    if n > 0 && a.dir_at(dir)->0 == b.dir_at(dir)->0 {
        lemma_entries_alike(a, b, dir, a.dir_at(dir)->0, (n - 1) as nat);
    }
}

proof fn lemma_entries_alike<A: FsOps, B: FsOps>(
    a: A,
    b: B,
    dir: Seq<char>,
    es: Seq<EntryView>,
    n: nat,
)
    ensures
        first_in_entries(a, b, dir, es, n) is None <==> forall|i: int|
            0 <= i < es.len() ==> entry_alike(a, b, dir, #[trigger] es[i], n),
    decreases n, 2nat, es.len(),
{
    if es.len() > 0 {
        let rest = es.skip(1);
        lemma_entries_alike(a, b, dir, rest, n);
        if es[0].is_dir {
            no_divergence_means_alike(a, b, join(dir, es[0].name), n);
        }
        assert(entry_divergence(a, b, dir, es[0], n) is None <==> entry_alike(
            a,
            b,
            dir,
            es[0],
            n,
        ));
        if first_in_entries(a, b, dir, es, n) is None {
            assert forall|i: int| 0 <= i < es.len() implies entry_alike(
                a,
                b,
                dir,
                #[trigger] es[i],
                n,
            ) by {
                if i > 0 {
                    assert(rest[i - 1] == es[i]);
                }
            }
        } else if forall|i: int|
            0 <= i < es.len() ==> entry_alike(a, b, dir, #[trigger] es[i], n) {
            assert(entry_alike(a, b, dir, es[0], n));
            assert forall|i: int| 0 <= i < rest.len() implies entry_alike(
                a,
                b,
                dir,
                #[trigger] rest[i],
                n,
            ) by {
                assert(rest[i] == es[i + 1]);
            }
        }
    }
}

/// Below `dir` the entries of each directory have names of their own, which a path can hold.
pub open spec fn well_named<F: FsOps>(fs: F, dir: Seq<char>, n: nat) -> bool
    decreases n,
{
    n > 0 ==> {
        let es = fs.dir_at(dir)->0;
        &&& forall|i: int| 0 <= i < es.len() ==> is_name((#[trigger] es[i]).name)
        &&& forall|i: int, j: int|
            0 <= i < es.len() && 0 <= j < es.len() && (#[trigger] es[i]).name == (
            #[trigger] es[j]).name ==> i == j
        &&& forall|i: int|
            0 <= i < es.len() && (#[trigger] es[i]).is_dir ==> well_named(
                fs,
                join(dir, es[i].name),
                (n - 1) as nat,
            )
    }
}

/// One name more leads one node further.
proof fn lemma_node_at_push(node: Node, ps: Seq<Seq<char>>, name: Seq<char>)
    ensures
        node_at(node, ps.push(name)) == (match node_at(node, ps) {
            Some(m) => kid(m, name),
            None => None,
        }),
    decreases ps.len(),
{
    let qs = ps.push(name);
    if ps.len() == 0 {
        assert(qs[0] == name);
        assert(qs.skip(1) =~= Seq::<Seq<char>>::empty());
        match kid(node, name) {
            Some(next) => {
                assert(node_at(next, qs.skip(1)) == Some(next));
            },
            None => {},
        }
    } else {
        assert(qs[0] == ps[0]);
        assert(qs.skip(1) =~= ps.skip(1).push(name));
        match kid(node, ps[0]) {
            Some(next) => {
                lemma_node_at_push(next, ps.skip(1), name);
            },
            None => {},
        }
    }
}

/// A copy of a tree can be walked as deep as the tree, and does not differ from it.
pub proof fn capture_is_alike<F: FsOps>(fs: F, c: Captured, n: nat)
    requires
        captured_from(fs, root(), n, c@),
        well_named(fs, root(), n),
    ensures
        walkable(c, root(), n),
        finite(c),
        alike(fs, c, root(), n),
        first_divergence(fs, c, root(), n) is None,
{
    assert(root().skip(1) =~= Seq::<char>::empty());
    assert(parts(root()) == parts(root().skip(1)));
    assert(parts(root()) == Seq::<Seq<char>>::empty());
    lemma_capture_alike(fs, c, root(), n, c@);
    no_divergence_means_alike(fs, c, root(), n);
}

proof fn lemma_capture_alike<F: FsOps>(fs: F, c: Captured, path: Seq<char>, n: nat, node: Node)
    requires
        captured_from(fs, path, n, node),
        node_at(c@, parts(path)) == Some(node),
        well_named(fs, path, n),
    ensures
        walkable(c, path, n),
        alike(fs, c, path, n),
    decreases n,
{
    match node {
        Node::File(_) => {},
        Node::Dir(kids) => {
            let es = fs.dir_at(path)->0;
            let k = (n - 1) as nat;
            assert(c.dir_at(path) == Some(kid_views(kids@)));
            assert(kid_views(kids@) =~= es) by {
                assert forall|i: int| 0 <= i < es.len() implies kid_views(kids@)[i] == es[i] by {
                    assert(kid_captured(fs, path, k, es[i], kids@[i]));
                }
            }
            assert forall|i: int| 0 <= i < es.len() implies entry_walkable(
                c,
                path,
                #[trigger] es[i],
                k,
            ) && entry_alike(fs, c, path, es[i], k) by {
                let e = es[i];
                let child = join(path, e.name);
                assert(kid_captured(fs, path, k, e, kids@[i]));
                assert(is_name(e.name));
                lemma_parts_join(path, e.name);
                lemma_node_at_push(c@, parts(path), e.name);
                assert forall|j: int| 0 <= j < i implies (#[trigger] kids@[j]).0.name@ != e.name by {
                    assert(kid_captured(fs, path, k, es[j], kids@[j]));
                    assert(es[j].name != es[i].name);
                }
                lemma_kid_pos(kids@, e.name, i);
                assert(node_at(c@, parts(child)) == Some(kids@[i].1));
                if e.is_dir {
                    lemma_capture_alike(fs, c, child, k, kids@[i].1);
                }
            }
            assert forall|i: int| 0 <= i < (c.dir_at(path)->0).len() implies entry_walkable(
                c,
                path,
                #[trigger] (c.dir_at(path)->0)[i],
                k,
            ) by {
                assert(entry_walkable(c, path, es[i], k));
            }
            assert forall|i: int| 0 <= i < (fs.dir_at(path)->0).len() implies entry_alike(
                fs,
                c,
                path,
                #[trigger] (fs.dir_at(path)->0)[i],
                k,
            ) by {
                assert(entry_walkable(c, path, es[i], k) && entry_alike(fs, c, path, es[i], k));
            }
        },
    }
}

/// A divergence is one: the directory it names is listed differently, as it says, or the file it
/// names has other bytes, of the lengths it says.
pub proof fn divergences_are_real<A: FsOps, B: FsOps>(
    a: A,
    b: B,
    dir: Seq<char>,
    n: nat,
    d: DivergenceView,
)
    requires
        first_divergence(a, b, dir, n) == Some(d),
    ensures
        match d {
            DivergenceView::Dir { path, got, want } => a.dir_at(path)->0 == got && b.dir_at(
                path,
            )->0 == want && got != want,
            DivergenceView::File { path, got_len, want_len } => a.file_at(path)->0 != b.file_at(
                path,
            )->0 && (a.file_at(path)->0).len() == got_len && (b.file_at(path)->0).len()
                == want_len,
        },
    decreases n, 1nat, 0nat,
{
    if n > 0 && a.dir_at(dir)->0 == b.dir_at(dir)->0 {
        lemma_entry_divergences(a, b, dir, a.dir_at(dir)->0, (n - 1) as nat, d);
    }
}

proof fn lemma_entry_divergences<A: FsOps, B: FsOps>(
    a: A,
    b: B,
    dir: Seq<char>,
    es: Seq<EntryView>,
    n: nat,
    d: DivergenceView,
)
    requires
        first_in_entries(a, b, dir, es, n) == Some(d),
    ensures
        match d {
            DivergenceView::Dir { path, got, want } => a.dir_at(path)->0 == got && b.dir_at(
                path,
            )->0 == want && got != want,
            DivergenceView::File { path, got_len, want_len } => a.file_at(path)->0 != b.file_at(
                path,
            )->0 && (a.file_at(path)->0).len() == got_len && (b.file_at(path)->0).len()
                == want_len,
        },
    decreases n, 2nat, es.len(),
{
    let e = es[0];
    if entry_divergence(a, b, dir, e, n) is Some {
        if e.is_dir {
            divergences_are_real(a, b, join(dir, e.name), n, d);
        }
    } else {
        lemma_entry_divergences(a, b, dir, es.skip(1), n, d);
    }
}

/// Which divergence comes first: a directory that is listed differently, before anything in it;
/// in one that is listed alike, that of the first entry that has one.
pub proof fn divergences_come_in_order<A: FsOps, B: FsOps>(
    a: A,
    b: B,
    dir: Seq<char>,
    n: nat,
    k: int,
)
    requires
        n > 0,
    ensures
        a.dir_at(dir)->0 != b.dir_at(dir)->0 ==> first_divergence(a, b, dir, n) == Some(
            DivergenceView::Dir { path: dir, got: a.dir_at(dir)->0, want: b.dir_at(dir)->0 },
        ),
        a.dir_at(dir)->0 == b.dir_at(dir)->0 && 0 <= k < (a.dir_at(dir)->0).len() && (forall|i: int|
            0 <= i < k ==> entry_alike(a, b, dir, #[trigger] (a.dir_at(dir)->0)[i], (n - 1) as nat))
            && !entry_alike(a, b, dir, (a.dir_at(dir)->0)[k], (n - 1) as nat) ==> {
            let e = (a.dir_at(dir)->0)[k];
            let child = join(dir, e.name);
            &&& first_divergence(a, b, dir, n) is Some
            &&& e.is_dir ==> first_divergence(a, b, dir, n) == first_divergence(
                a,
                b,
                child,
                (n - 1) as nat,
            )
            &&& !e.is_dir ==> first_divergence(a, b, dir, n) == Some(
                DivergenceView::File {
                    path: child,
                    got_len: (a.file_at(child)->0).len(),
                    want_len: (b.file_at(child)->0).len(),
                },
            )
        },
{
    let es = a.dir_at(dir)->0;
    let m = (n - 1) as nat;
    if es == b.dir_at(dir)->0 && 0 <= k < es.len() && (forall|i: int|
        0 <= i < k ==> entry_alike(a, b, dir, #[trigger] es[i], m)) && !entry_alike(
        a,
        b,
        dir,
        es[k],
        m,
    ) {
        lemma_first_of_entries(a, b, dir, es, m, k);
        if es[k].is_dir {
            no_divergence_means_alike(a, b, join(dir, es[k].name), m);
        }
    }
}

proof fn lemma_first_of_entries<A: FsOps, B: FsOps>(
    a: A,
    b: B,
    dir: Seq<char>,
    es: Seq<EntryView>,
    n: nat,
    k: int,
)
    requires
        0 <= k < es.len(),
        forall|i: int| 0 <= i < k ==> entry_alike(a, b, dir, #[trigger] es[i], n),
        !entry_alike(a, b, dir, es[k], n),
    ensures
        first_in_entries(a, b, dir, es, n) == entry_divergence(a, b, dir, es[k], n),
    decreases k,
{
    let e = es[0];
    if e.is_dir {
        no_divergence_means_alike(a, b, join(dir, e.name), n);
    }
    assert(entry_divergence(a, b, dir, e, n) is None <==> entry_alike(a, b, dir, e, n));
    if k > 0 {
        let rest = es.skip(1);
        assert forall|i: int| 0 <= i < k - 1 implies entry_alike(
            a,
            b,
            dir,
            #[trigger] rest[i],
            n,
        ) by {
            assert(rest[i] == es[i + 1]);
        }
        assert(rest[k - 1] == es[k]);
        lemma_first_of_entries(a, b, dir, rest, n, k - 1);
    }
}

} // verus!
