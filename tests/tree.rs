use ferrite_edit::file_tree::{DirListing, FileLeaf, FileTree, RowKind, TreeRow};

fn s(x: &str) -> String {
    x.to_string()
}

fn rows(r: &[TreeRow]) -> Vec<(RowKind, String, usize)> {
    r.iter().map(|t| (t.kind, t.path.clone(), t.level)).collect()
}

fn sample() -> (FileTree, Vec<DirListing>) {
    let tree = FileTree::new(
        s("/root"),
        vec![],
        vec![
            FileLeaf::File(s("/root/a.txt")),
            FileLeaf::File(s("/root/b.txt")),
            FileLeaf::Folder(s("/root/sub")),
        ],
    );
    let listings = vec![DirListing {
        path: s("/root/sub"),
        entries: vec![FileLeaf::File(s("/root/sub/c.txt"))],
    }];
    (tree, listings)
}

#[test]
fn collapsed_then_expanded_subdirectory() {
    let (mut tree, listings) = sample();
    assert_eq!(
        rows(&tree.view_elements(1, &listings)),
        vec![
            (RowKind::File, s("/root/a.txt"), 1),
            (RowKind::File, s("/root/b.txt"), 1),
            (RowKind::Expand, s("/root/sub"), 1),
        ]
    );
    tree.open_folder(s("/root/sub"));
    assert_eq!(
        rows(&tree.view_elements(1, &listings)),
        vec![
            (RowKind::File, s("/root/a.txt"), 1),
            (RowKind::File, s("/root/b.txt"), 1),
            (RowKind::Collapse, s("/root/sub"), 1),
            (RowKind::File, s("/root/sub/c.txt"), 2),
        ]
    );
}

#[test]
fn collapsing_again_restores_the_view() {
    let (mut tree, listings) = sample();
    let before = rows(&tree.view_elements(1, &listings));
    tree.open_folder(s("/root/sub"));
    tree.open_folder(s("/root/sub"));
    assert_eq!(tree.opened_folders.len(), 1);
    tree.close_folder(&s("/root/sub"));
    assert!(tree.opened_folders.is_empty());
    assert_eq!(rows(&tree.view_elements(1, &listings)), before);
}

#[test]
fn no_expansion_gives_one_row_per_entry() {
    let (tree, listings) = sample();
    let r = tree.view_elements(1, &listings);
    assert_eq!(r.len(), tree.branches.len());
    assert!(r.iter().all(|t| t.level == 1));
}

#[test]
fn one_marker_per_folder_matching_expansion() {
    let tree = FileTree::new(
        s("/w"),
        vec![s("/w/x"), s("/stale")],
        vec![FileLeaf::Folder(s("/w/x")), FileLeaf::Folder(s("/w/y")), FileLeaf::File(s("/w/z"))],
    );
    let listings = vec![DirListing {
        path: s("/w/x"),
        entries: vec![FileLeaf::Folder(s("/w/x/inner")), FileLeaf::File(s("/w/x/f"))],
    }];
    assert_eq!(
        rows(&tree.view_elements(0, &listings)),
        vec![
            (RowKind::Collapse, s("/w/x"), 0),
            (RowKind::Expand, s("/w/x/inner"), 1),
            (RowKind::File, s("/w/x/f"), 1),
            (RowKind::Expand, s("/w/y"), 0),
            (RowKind::File, s("/w/z"), 0),
        ]
    );
}

#[test]
fn expanded_folder_without_listing_shows_no_contents() {
    let tree = FileTree::new(s("/r"), vec![s("/r/gone")], vec![FileLeaf::Folder(s("/r/gone"))]);
    assert_eq!(
        rows(&tree.view_elements(1, &vec![])),
        vec![(RowKind::Collapse, s("/r/gone"), 1)]
    );
}

#[test]
fn cyclic_listings_are_cut_off() {
    let tree = FileTree::new(s("/l"), vec![s("/l/loop")], vec![FileLeaf::Folder(s("/l/loop"))]);
    let listings = vec![DirListing {
        path: s("/l/loop"),
        entries: vec![FileLeaf::Folder(s("/l/loop"))],
    }];
    assert_eq!(
        rows(&tree.view_elements(1, &listings)),
        vec![(RowKind::Collapse, s("/l/loop"), 1), (RowKind::Collapse, s("/l/loop"), 2)]
    );
}

#[test]
fn empty_directory_gives_no_rows() {
    let tree = FileTree::new(s("/e"), vec![], vec![]);
    assert!(tree.view_elements(1, &vec![]).is_empty());
}

#[test]
fn row_builders() {
    let f = FileTree::file_btn(s("/a"), 3);
    assert_eq!((f.kind, f.path.as_str(), f.level), (RowKind::File, "/a", 3));
    let o = FileTree::folder_btn_open(s("/b"), 2);
    assert_eq!((o.kind, o.path.as_str(), o.level), (RowKind::Expand, "/b", 2));
    let d = FileTree::folder_btn_del(s("/c"), 1);
    assert_eq!((d.kind, d.path.as_str(), d.level), (RowKind::Collapse, "/c", 1));
}
