use poppy::kd::{Children, Dim, Tree, Zipper};
use poppy::succinct::{Access, Rank, Select1};

#[test]
fn tree_builds_and_reports_arity() {
    let t = Tree(0b0110u64, 2usize);
    assert_eq!(t.index, 0b0110);
    assert_eq!(t.dim(), 2);
    assert!(t.access(1));
    assert_eq!(t.rank(true, 4), 2);
    assert_eq!(t.select1(1), 2);
}

#[test]
fn zipper_navigates_down() {
    let t = Tree(0b0110u64, 2usize);
    let root = t.root();
    assert_eq!(root.cursor, 1);
    assert!(root.top());
    assert!(!root.tip());
    let c: Children<u64, usize> = root.children().unwrap();
    assert_eq!(c.cursor, 1);
    assert_eq!(c.nth(0).cursor, 1);
    assert_eq!(c.nth(1).cursor, 2);
    assert_eq!(c.dim(), 2);
    let second: Zipper<u64, usize> = root.child(1).unwrap();
    assert_eq!(second.cursor, 2);
    assert!(!second.top());
    assert_eq!(second.children().unwrap().cursor, 2);
}

#[test]
fn zipper_leaf_has_no_children() {
    let t = Tree(0b0110u64, 2usize);
    let leaf = Zipper { tree: t, cursor: 3 };
    assert!(leaf.tip());
    assert!(leaf.children().is_none());
    assert!(leaf.child(0).is_none());
    assert_eq!(leaf.root().cursor, 1);
}

#[test]
fn zipper_navigates_up() {
    let t = Tree(0b0110u64, 2usize);
    assert!(t.root().parent().is_none());
    let z = Zipper { tree: t, cursor: 3 };
    assert_eq!(z.parent().unwrap().cursor, 2);
    let c = Children { tree: t, cursor: 2 };
    assert_eq!(c.parent().cursor, 2);
    assert_eq!(c.root().cursor, 1);
}
