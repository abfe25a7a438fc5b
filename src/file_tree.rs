use vstd::prelude::*;

verus! {

/// A directory entry: a folder or a file, by path.
#[derive(Clone, Debug)]
pub enum FileLeaf {
    Folder(String),
    File(String),
}

/// The abstract form of a directory entry.
pub enum LeafView {
    Folder(Seq<char>),
    File(Seq<char>),
}

impl FileLeaf {
    pub open spec fn view(&self) -> LeafView {
        match self {
            FileLeaf::Folder(p) => LeafView::Folder(p@),
            FileLeaf::File(p) => LeafView::File(p@),
        }
    }
}

/// What a row of the flattened tree stands for.
#[derive(Clone, Copy, Debug, PartialEq, Eq, Structural)]
pub enum RowKind {
    /// A file, which can be opened.
    File,
    /// A collapsed folder, which can be expanded.
    Expand,
    /// An expanded folder, which can be collapsed; its contents follow it.
    Collapse,
}

/// One row of the flattened tree: its kind, the path it carries, and its
/// indentation level.
#[derive(Clone, Debug)]
pub struct TreeRow {
    pub kind: RowKind,
    pub path: String,
    pub level: usize,
}

impl TreeRow {
    pub open spec fn view(&self) -> (RowKind, Seq<char>, nat) {
        (self.kind, self.path@, self.level as nat)
    }
}

/// The entries of one directory, in the order in which they were listed.
#[derive(Clone, Debug)]
pub struct DirListing {
    pub path: String,
    pub entries: Vec<FileLeaf>,
}

impl DirListing {
    pub open spec fn view(&self) -> (Seq<char>, Seq<LeafView>) {
        (self.path@, leaves_view(self.entries@))
    }
}

pub open spec fn leaves_view(v: Seq<FileLeaf>) -> Seq<LeafView> {
    v.map_values(|l: FileLeaf| l.view())
}

pub open spec fn rows_view(v: Seq<TreeRow>) -> Seq<(RowKind, Seq<char>, nat)> {
    v.map_values(|r: TreeRow| r.view())
}

pub open spec fn listings_view(v: Seq<DirListing>) -> Seq<(Seq<char>, Seq<LeafView>)> {
    v.map_values(|d: DirListing| d.view())
}

/// The set of paths that a list of paths holds.
pub open spec fn path_set(v: Seq<String>) -> Set<Seq<char>> {
    Set::new(|p: Seq<char>| exists|i: int| 0 <= i < v.len() && v[i]@ == p)
}

/// Whether `i` is the first listing of directory `p`.
pub open spec fn is_first_listing(snap: Seq<(Seq<char>, Seq<LeafView>)>, p: Seq<char>, i: int) -> bool {
    &&& 0 <= i < snap.len()
    &&& snap[i].0 == p
    &&& forall|j: int| 0 <= j < i ==> snap[j].0 != p
}

/// The position of the first listing of directory `p`, if there is one.
pub open spec fn listing_index(snap: Seq<(Seq<char>, Seq<LeafView>)>, p: Seq<char>) -> Option<int> {
    if exists|i: int| is_first_listing(snap, p, i) {
        Some(choose|i: int| is_first_listing(snap, p, i))
    } else {
        None
    }
}

/// The flattened view of `leaves` at indentation `level`, in pre-order: a file
/// gives one row; a collapsed folder gives an expand row; an expanded folder
/// gives a collapse row followed by its own listing one level deeper, found
/// in `snap`. At most `depth` levels are entered, which bounds the walk when
/// links make the directories cyclic.
pub open spec fn flat(
    snap: Seq<(Seq<char>, Seq<LeafView>)>,
    opened: Set<Seq<char>>,
    leaves: Seq<LeafView>,
    level: nat,
    depth: nat,
) -> Seq<(RowKind, Seq<char>, nat)>
    decreases depth, leaves.len(),
{
    if leaves.len() == 0 {
        Seq::empty()
    } else {
        let front = flat(snap, opened, leaves.drop_last(), level, depth);
        match leaves.last() {
            LeafView::File(p) => front.push((RowKind::File, p, level)),
            LeafView::Folder(p) => if opened.contains(p) {
                let inner = if depth > 0 {
                    match listing_index(snap, p) {
                        Some(i) => if 0 <= i < snap.len() {
                            flat(snap, opened, snap[i].1, level + 1, (depth - 1) as nat)
                        } else {
                            Seq::empty()
                        },
                        None => Seq::empty(),
                    }
                } else {
                    Seq::empty()
                };
                front.push((RowKind::Collapse, p, level)) + inner
            } else {
                front.push((RowKind::Expand, p, level))
            },
        }
    }
}

/// A directory, its entries, and the set of folders that are expanded.
pub struct FileTree {
    pub path: String,
    pub branches: Vec<FileLeaf>,
    pub opened_folders: Vec<String>,
}

/// Whether `p` is among `v`.
fn contains_path(v: &Vec<String>, p: &String) -> (r: bool)
    ensures
        r == path_set(v@).contains(p@),
{
    let mut i: usize = 0;
    while i < v.len()
        invariant
            0 <= i <= v@.len(),
            forall|j: int| 0 <= j < i ==> v@[j]@ != p@,
        decreases v@.len() - i,
    {
        if v[i] == *p {
            return true;
        }
        i = i + 1;
    }
    false
}

/// The position of the first listing of directory `p`.
fn find_listing(snap: &Vec<DirListing>, p: &String) -> (r: Option<usize>)
    ensures
        match r {
            Some(i) => listing_index(listings_view(snap@), p@) == Some(i as int),
            None => listing_index(listings_view(snap@), p@) == None::<int>,
        },
{
    let ghost sv = listings_view(snap@);
    let mut i: usize = 0;
    while i < snap.len()
        invariant
            0 <= i <= snap@.len(),
            sv == listings_view(snap@),
            forall|j: int| 0 <= j < i ==> sv[j].0 != p@,
        decreases snap@.len() - i,
    {
        if snap[i].path == *p {
            proof {
                assert(is_first_listing(sv, p@, i as int));
                let c = choose|c: int| is_first_listing(sv, p@, c);
                if c < i {
                    assert(sv[c].0 != p@);
                } else if c > i {
                    assert(sv[i as int].0 != p@);
                }
            }
            return Some(i);
        }
        i = i + 1;
    }
    proof {
        if exists|c: int| is_first_listing(sv, p@, c) {
            let c = choose|c: int| is_first_listing(sv, p@, c);
            assert(sv[c].0 != p@);
        }
    }
    None
}

/// Appends the flattened view of `leaves` to `out`.
fn flatten_into(
    leaves: &Vec<FileLeaf>,
    opened: &Vec<String>,
    snap: &Vec<DirListing>,
    level: usize,
    depth: usize,
    out: &mut Vec<TreeRow>,
)
    requires
        level + depth <= usize::MAX,
    ensures
        rows_view(final(out)@) == rows_view(old(out)@) + flat(
            listings_view(snap@),
            path_set(opened@),
            leaves_view(leaves@),
            level as nat,
            depth as nat,
        ),
    decreases depth,
{
    let ghost sv = listings_view(snap@);
    let ghost os = path_set(opened@);
    let ghost lv = leaves_view(leaves@);
    let ghost start = rows_view(out@);
    let mut i: usize = 0;
    assert(lv.take(0) =~= Seq::<LeafView>::empty());
    assert(start + Seq::empty() =~= start);
    while i < leaves.len()
        invariant
            0 <= i <= leaves@.len(),
            level + depth <= usize::MAX,
            sv == listings_view(snap@),
            os == path_set(opened@),
            lv == leaves_view(leaves@),
            rows_view(out@) == start + flat(sv, os, lv.take(i as int), level as nat, depth as nat),
        decreases leaves@.len() - i,
    {
        let ghost before = rows_view(out@);
        assert(lv.take(i + 1).drop_last() =~= lv.take(i as int));
        assert(lv.take(i + 1).last() == leaves@[i as int].view());
        match &leaves[i] {
            FileLeaf::File(p) => {
                let row = TreeRow { kind: RowKind::File, path: p.clone(), level };
                out.push(row);
                assert(rows_view(out@) =~= before.push(row.view()));
            },
            FileLeaf::Folder(p) => {
                if contains_path(opened, p) {
                    let row = TreeRow { kind: RowKind::Collapse, path: p.clone(), level };
                    out.push(row);
                    assert(rows_view(out@) =~= before.push(row.view()));
                    let ghost mid = rows_view(out@);
                    if depth > 0 {
                        match find_listing(snap, p) {
                            Some(j) => {
                                flatten_into(&snap[j].entries, opened, snap, level + 1, depth - 1, out);
                                assert(sv[j as int].1 == leaves_view(snap@[j as int].entries@));
                            },
                            None => {
                                assert(mid + Seq::empty() =~= mid);
                            },
                        }
                    } else {
                        assert(mid + Seq::empty() =~= mid);
                    }
                } else {
                    let row = TreeRow { kind: RowKind::Expand, path: p.clone(), level };
                    out.push(row);
                    assert(rows_view(out@) =~= before.push(row.view()));
                }
            },
        }
        proof {
            let next = flat(sv, os, lv.take(i + 1), level as nat, depth as nat);
            assert(rows_view(out@) =~= start + next);
        }
        i = i + 1;
    }
    assert(lv.take(leaves@.len() as int) =~= lv);
}

impl FileTree {
    /// The set of expanded folders.
    pub open spec fn opened(&self) -> Set<Seq<char>> {
        path_set(self.opened_folders@)
    }

    /// A tree rooted at `path`, whose entries are `branches` in listing order.
    pub fn new(path: String, opened_folders: Vec<String>, branches: Vec<FileLeaf>) -> (r: Self)
        ensures
            r.path == path,
            r.opened_folders == opened_folders,
            r.branches == branches,
    {
        FileTree { path, branches, opened_folders }
    }

    /// The row of a file at `level`.
    pub fn file_btn(buf: String, level: usize) -> (r: TreeRow)
        ensures
            r.view() == (RowKind::File, buf@, level as nat),
    {
        TreeRow { kind: RowKind::File, path: buf, level }
    }

    /// The row of a collapsed folder at `level`.
    pub fn folder_btn_open(buf: String, level: usize) -> (r: TreeRow)
        ensures
            r.view() == (RowKind::Expand, buf@, level as nat),
    {
        TreeRow { kind: RowKind::Expand, path: buf, level }
    }

    /// The row of an expanded folder at `level`.
    pub fn folder_btn_del(buf: String, level: usize) -> (r: TreeRow)
        ensures
            r.view() == (RowKind::Collapse, buf@, level as nat),
    {
        TreeRow { kind: RowKind::Collapse, path: buf, level }
    }

    /// Marks the folder `p` as expanded.
    pub fn open_folder(&mut self, p: String)
        ensures
            final(self).opened() == old(self).opened().insert(p@),
            final(self).path == old(self).path,
            final(self).branches == old(self).branches,
    {
        if !contains_path(&self.opened_folders, &p) {
            let ghost v = self.opened_folders@;
            let ghost q = p@;
            self.opened_folders.push(p);
            proof {
                let w = self.opened_folders@;
                assert forall|x: Seq<char>| #[trigger] path_set(w).contains(x) == path_set(v).insert(q).contains(x) by {
                    if path_set(v).contains(x) {
                        let i = choose|i: int| 0 <= i < v.len() && v[i]@ == x;
                        assert(w[i] == v[i]);
                    }
                    if x == q {
                        assert(w[v.len() as int]@ == q);
                    }
                    if path_set(w).contains(x) && x != q {
                        let i = choose|i: int| 0 <= i < w.len() && w[i]@ == x;
                        assert(i < v.len());
                        assert(w[i] == v[i]);
                    }
                }
                assert(path_set(w) =~= path_set(v).insert(q));
            }
        } else {
            assert(self.opened() =~= old(self).opened().insert(p@));
        }
    }

    /// Marks the folder `p` as collapsed.
    pub fn close_folder(&mut self, p: &String)
        ensures
            final(self).opened() == old(self).opened().remove(p@),
            final(self).path == old(self).path,
            final(self).branches == old(self).branches,
    {
        let ghost v = self.opened_folders@;
        let mut kept: Vec<String> = Vec::new();
        let mut i: usize = 0;
        while i < self.opened_folders.len()
            invariant
                0 <= i <= v.len(),
                self.opened_folders@ == v,
                self.path == old(self).path,
                self.branches == old(self).branches,
                forall|x: Seq<char>| #[trigger] path_set(kept@).contains(x)
                    == (x != p@ && exists|j: int| 0 <= j < i && v[j]@ == x),
            decreases v.len() - i,
        {
            if self.opened_folders[i] != *p {
                let ghost k0 = kept@;
                let f = self.opened_folders[i].clone();
                kept.push(f);
                proof {
                    assert forall|x: Seq<char>| #[trigger] path_set(kept@).contains(x)
                        == (x != p@ && exists|j: int| 0 <= j < i + 1 && v[j]@ == x) by {
                        if path_set(k0).contains(x) {
                            let m = choose|m: int| 0 <= m < k0.len() && k0[m]@ == x;
                            assert(kept@[m] == k0[m]);
                        }
                        if x == v[i as int]@ {
                            assert(kept@[k0.len() as int]@ == x);
                        }
                        if path_set(kept@).contains(x) {
                            let m = choose|m: int| 0 <= m < kept@.len() && kept@[m]@ == x;
                            if m < k0.len() {
                                assert(kept@[m] == k0[m]);
                                assert(path_set(k0).contains(x));
                            }
                        }
                        if x != p@ && exists|j: int| 0 <= j < i + 1 && v[j]@ == x {
                            let j = choose|j: int| 0 <= j < i + 1 && v[j]@ == x;
                            if j < i {
                                assert(path_set(k0).contains(x));
                            }
                        }
                    }
                }
            } else {
                proof {
                    assert forall|x: Seq<char>| #[trigger] path_set(kept@).contains(x)
                        == (x != p@ && exists|j: int| 0 <= j < i + 1 && v[j]@ == x) by {
                        if x != p@ && exists|j: int| 0 <= j < i + 1 && v[j]@ == x {
                            let j = choose|j: int| 0 <= j < i + 1 && v[j]@ == x;
                            assert(j < i);
                        }
                    }
                }
            }
            i = i + 1;
        }
        self.opened_folders = kept;
        assert(self.opened() =~= old(self).opened().remove(p@));
    }

    /// The rows of the tree, starting at indentation `level`; the contents of
    /// expanded folders come from `listings`.
    pub fn view_elements(&self, level: usize, listings: &Vec<DirListing>) -> (r: Vec<TreeRow>)
        requires
            level + listings@.len() <= usize::MAX,
        ensures
            rows_view(r@) == flat(
                listings_view(listings@),
                self.opened(),
                leaves_view(self.branches@),
                level as nat,
                listings@.len(),
            ),
    {
        let mut out: Vec<TreeRow> = Vec::new();
        flatten_into(&self.branches, &self.opened_folders, listings, level, listings.len(), &mut out);
        assert(rows_view(Seq::<TreeRow>::empty()) =~= Seq::empty());
        assert(Seq::<(RowKind, Seq<char>, nat)>::empty() + flat(
            listings_view(listings@),
            self.opened(),
            leaves_view(self.branches@),
            level as nat,
            listings@.len(),
        ) =~= flat(
            listings_view(listings@),
            self.opened(),
            leaves_view(self.branches@),
            level as nat,
            listings@.len(),
        ));
        out
    }
}

/// The row that an entry gives at its own level.
pub open spec fn marker(opened: Set<Seq<char>>, leaf: LeafView, level: nat) -> (RowKind, Seq<char>, nat) {
    match leaf {
        LeafView::File(p) => (RowKind::File, p, level),
        LeafView::Folder(p) => if opened.contains(p) {
            (RowKind::Collapse, p, level)
        } else {
            (RowKind::Expand, p, level)
        },
    }
}

/// The rows at indentation `l`, in order.
pub open spec fn rows_at(rows: Seq<(RowKind, Seq<char>, nat)>, l: nat) -> Seq<(RowKind, Seq<char>, nat)>
    decreases rows.len(),
{
    if rows.len() == 0 {
        Seq::empty()
    } else if rows.last().2 == l {
        rows_at(rows.drop_last(), l).push(rows.last())
    } else {
        rows_at(rows.drop_last(), l)
    }
}

proof fn lemma_rows_at_concat(a: Seq<(RowKind, Seq<char>, nat)>, b: Seq<(RowKind, Seq<char>, nat)>, l: nat)
    ensures
        rows_at(a + b, l) == rows_at(a, l) + rows_at(b, l),
    decreases b.len(),
{
    if b.len() == 0 {
        assert(a + b =~= a);
        assert(rows_at(a, l) + rows_at(b, l) =~= rows_at(a, l));
    } else {
        assert((a + b).drop_last() =~= a + b.drop_last());
        assert((a + b).last() == b.last());
        lemma_rows_at_concat(a, b.drop_last(), l);
        if b.last().2 == l {
            assert(rows_at(a, l) + rows_at(b.drop_last(), l).push(b.last())
                =~= (rows_at(a, l) + rows_at(b.drop_last(), l)).push(b.last()));
        }
    }
}

proof fn lemma_rows_at_none(rows: Seq<(RowKind, Seq<char>, nat)>, l: nat)
    requires
        forall|i: int| 0 <= i < rows.len() ==> (#[trigger] rows[i]).2 != l,
    ensures
        rows_at(rows, l) == Seq::<(RowKind, Seq<char>, nat)>::empty(),
    decreases rows.len(),
{
    if rows.len() > 0 {
        let pre = rows.drop_last();
        assert forall|i: int| 0 <= i < pre.len() implies (#[trigger] pre[i]).2 != l by {
            assert(pre[i] == rows[i]);
        }
        assert(rows[rows.len() - 1].2 != l);
        lemma_rows_at_none(pre, l);
    }
}

/// Every row of a flattened view is at its starting level or deeper.
proof fn lemma_flat_levels(
    snap: Seq<(Seq<char>, Seq<LeafView>)>,
    opened: Set<Seq<char>>,
    leaves: Seq<LeafView>,
    level: nat,
    depth: nat,
)
    ensures
        forall|i: int| 0 <= i < flat(snap, opened, leaves, level, depth).len()
            ==> (#[trigger] flat(snap, opened, leaves, level, depth)[i]).2 >= level,
    decreases depth, leaves.len(),
{
    if leaves.len() > 0 {
        let rows = flat(snap, opened, leaves, level, depth);
        let front = flat(snap, opened, leaves.drop_last(), level, depth);
        lemma_flat_levels(snap, opened, leaves.drop_last(), level, depth);
        match leaves.last() {
            LeafView::File(p) => {
                assert forall|i: int| 0 <= i < rows.len() implies (#[trigger] rows[i]).2 >= level by {
                    if i < front.len() {
                        assert(front[i] == rows[i]);
                    }
                }
            },
            LeafView::Folder(p) => {
                if opened.contains(p) && depth > 0 {
                    match listing_index(snap, p) {
                        Some(j) => if 0 <= j < snap.len() {
                            lemma_flat_levels(snap, opened, snap[j].1, level + 1, (depth - 1) as nat);
                            let inner = flat(snap, opened, snap[j].1, level + 1, (depth - 1) as nat);
                            let head = front.push((RowKind::Collapse, p, level));
                            assert(rows == head + inner);
                            assert forall|i: int| 0 <= i < rows.len() implies (#[trigger] rows[i]).2 >= level by {
                                if i < front.len() {
                                    assert(front[i] == rows[i]);
                                } else if i >= head.len() {
                                    assert(inner[i - head.len()] == rows[i]);
                                }
                            }
                        },
                        None => {
                            assert forall|i: int| 0 <= i < rows.len() implies (#[trigger] rows[i]).2 >= level by {
                                if i < front.len() {
                                    assert(front[i] == rows[i]);
                                }
                            }
                        },
                    }
                } else {
                    assert forall|i: int| 0 <= i < rows.len() implies (#[trigger] rows[i]).2 >= level by {
                        if i < front.len() {
                            assert(front[i] == rows[i]);
                        }
                    }
                }
            },
        }
    }
}

/// The rows at the starting level are exactly one per entry, in order: a file
/// row for a file, and for a folder a collapse row if it is expanded, an
/// expand row if it is not.
pub proof fn lemma_one_marker_per_entry(
    snap: Seq<(Seq<char>, Seq<LeafView>)>,
    opened: Set<Seq<char>>,
    leaves: Seq<LeafView>,
    level: nat,
    depth: nat,
)
    ensures
        rows_at(flat(snap, opened, leaves, level, depth), level)
            == leaves.map_values(|l: LeafView| marker(opened, l, level)),
    decreases leaves.len(),
{
    let f = |l: LeafView| marker(opened, l, level);
    if leaves.len() == 0 {
        assert(leaves.map_values(f) =~= Seq::empty());
    } else {
        let pre = leaves.drop_last();
        let front = flat(snap, opened, pre, level, depth);
        lemma_one_marker_per_entry(snap, opened, pre, level, depth);
        assert(leaves.map_values(f) =~= pre.map_values(f).push(marker(opened, leaves.last(), level)));
        match leaves.last() {
            LeafView::File(p) => {
                assert(front.push((RowKind::File, p, level)).drop_last() =~= front);
            },
            LeafView::Folder(p) => if opened.contains(p) {
                let head = front.push((RowKind::Collapse, p, level));
                assert(head.drop_last() =~= front);
                let inner = if depth > 0 {
                    match listing_index(snap, p) {
                        Some(i) => if 0 <= i < snap.len() {
                            flat(snap, opened, snap[i].1, level + 1, (depth - 1) as nat)
                        } else {
                            Seq::empty()
                        },
                        None => Seq::empty(),
                    }
                } else {
                    Seq::empty()
                };
                assert(flat(snap, opened, leaves, level, depth) == head + inner);
                lemma_rows_at_concat(head, inner, level);
                if depth > 0 {
                    match listing_index(snap, p) {
                        Some(i) => if 0 <= i < snap.len() {
                            lemma_flat_levels(snap, opened, snap[i].1, level + 1, (depth - 1) as nat);
                        },
                        None => {},
                    }
                }
                lemma_rows_at_none(inner, level);
                assert(rows_at(head, level) + rows_at(inner, level) =~= rows_at(head, level));
            } else {
                assert(front.push((RowKind::Expand, p, level)).drop_last() =~= front);
            },
        }
    }
}

/// With no expanded folder among the entries, the view does not recurse: one
/// row per entry, all at the starting level.
pub proof fn lemma_flat_without_expansion(
    snap: Seq<(Seq<char>, Seq<LeafView>)>,
    opened: Set<Seq<char>>,
    leaves: Seq<LeafView>,
    level: nat,
    depth: nat,
)
    requires
        forall|i: int| 0 <= i < leaves.len() ==> match #[trigger] leaves[i] {
            LeafView::Folder(p) => !opened.contains(p),
            LeafView::File(_) => true,
        },
    ensures
        flat(snap, opened, leaves, level, depth) == leaves.map_values(|l: LeafView| marker(opened, l, level)),
        flat(snap, opened, leaves, level, depth).len() == leaves.len(),
        forall|i: int| 0 <= i < leaves.len() ==> (#[trigger] flat(snap, opened, leaves, level, depth)[i]).2 == level,
    decreases leaves.len(),
{
    let f = |l: LeafView| marker(opened, l, level);
    if leaves.len() == 0 {
        assert(leaves.map_values(f) =~= Seq::empty());
    } else {
        let pre = leaves.drop_last();
        assert forall|i: int| 0 <= i < pre.len() implies match #[trigger] pre[i] {
            LeafView::Folder(p) => !opened.contains(p),
            LeafView::File(_) => true,
        } by {
            assert(pre[i] == leaves[i]);
        }
        lemma_flat_without_expansion(snap, opened, pre, level, depth);
        assert(leaves[leaves.len() - 1] == leaves.last());
        assert(leaves.map_values(f) =~= pre.map_values(f).push(marker(opened, leaves.last(), level)));
    }
    let rows = flat(snap, opened, leaves, level, depth);
    assert forall|i: int| 0 <= i < leaves.len() implies (#[trigger] rows[i]).2 == level by {
        assert(rows[i] == marker(opened, leaves[i], level));
    }
}

} // verus!
