use chewy::failure::{Failure, Status};
use chewy::style::{parse_style, Dimension, FlexDirection, FlexWrap, StyleRecord};
use chewy::tree::{available_space, LayoutTree, NodeHandle, Space};
use taffy::geometry::{Rect, Size};
use taffy::layout::AvailableSpace;
use taffy::style::Style;

fn length(d: &Dimension) -> taffy::style::Dimension {
    match d {
        Dimension::Auto => taffy::style::Dimension::Auto,
        Dimension::Points(n) => taffy::style::Dimension::Points(n.as_str().parse::<f32>().unwrap()),
        Dimension::Percent(n) => taffy::style::Dimension::Percent(n.as_str().parse::<f32>().unwrap()),
    }
}

fn engine_style(s: &StyleRecord) -> Style {
    let m = s.margin();
    Style {
        flex_direction: match s.flex_direction() {
            FlexDirection::Row => taffy::style::FlexDirection::Row,
            FlexDirection::Column => taffy::style::FlexDirection::Column,
            FlexDirection::RowReverse => taffy::style::FlexDirection::RowReverse,
            FlexDirection::ColumnReverse => taffy::style::FlexDirection::ColumnReverse,
        },
        flex_wrap: match s.flex_wrap() {
            FlexWrap::NoWrap => taffy::style::FlexWrap::NoWrap,
            FlexWrap::Wrap => taffy::style::FlexWrap::Wrap,
            FlexWrap::WrapReverse => taffy::style::FlexWrap::WrapReverse,
        },
        size: Size { width: length(s.width()), height: length(s.height()) },
        margin: Rect { left: length(&m.left), right: length(&m.right), top: length(&m.top), bottom: length(&m.bottom) },
        ..Style::default()
    }
}

fn space(px: i32) -> AvailableSpace {
    match available_space(px) {
        Space::Definite(p) => AvailableSpace::Definite(p as f32),
        Space::MaxContent => AvailableSpace::MaxContent,
    }
}

fn sized(width: i32, height: i32) -> Size<AvailableSpace> {
    Size { width: space(width), height: space(height) }
}

fn leaf(tree: &mut LayoutTree, text: &str) -> NodeHandle {
    let style = parse_style(text).unwrap();
    tree.new_leaf(Some(engine_style(&style))).unwrap()
}

#[test]
fn node_size_test() {
    assert_eq!(std::mem::size_of::<NodeHandle>(), std::mem::size_of::<taffy::node::Node>());
}

#[test]
fn smoke_test() {
    let mut tree = LayoutTree::new();
    let root_node = leaf(&mut tree, "flex-direction: row;flex-wrap: wrap;width: 100%;height: 100%");
    let box_style = engine_style(&parse_style("margin: 10px;width: 170px;height: 170px").unwrap());
    let mut nodes = Vec::new();
    for _ in 0..98 {
        let node = tree.new_leaf(Some(box_style.clone())).unwrap();
        nodes.push(node);
    }
    tree.set_children(root_node, Some(&nodes)).unwrap();
    tree.compute_layout(root_node, sized(800, -1)).unwrap();
}

#[test]
fn every_node_has_a_layout_after_compute() {
    let mut tree = LayoutTree::new();
    let root = leaf(&mut tree, "flex-direction: row;flex-wrap: wrap;width: 100%;height: 100%");
    let nodes: Vec<NodeHandle> =
        (0..98).map(|_| leaf(&mut tree, "margin: 10px;width: 170px;height: 170px")).collect();
    tree.set_children(root, Some(&nodes)).unwrap();
    tree.compute_layout(root, sized(800, -1)).unwrap();
    assert_eq!(tree.node_count(), 99);
    for node in std::iter::once(root).chain(nodes.iter().copied()) {
        let layout = tree.get_layout(node).unwrap();
        assert!(layout.size.width.is_finite() && layout.size.height.is_finite());
        assert!(layout.location.x.is_finite() && layout.location.y.is_finite());
    }
    let child = tree.get_layout(nodes[0]).unwrap();
    assert_eq!((child.size.width, child.size.height), (170.0, 170.0));
    assert_eq!((child.location.x, child.location.y), (10.0, 10.0));
}

#[test]
fn handles_keep_their_bits() {
    let mut tree = LayoutTree::new();
    let a = leaf(&mut tree, "width: auto");
    let b = NodeHandle::from_bits(a.bits());
    assert_eq!(a, b);
    tree.compute_layout(b, sized(10, 10)).unwrap();
    assert!(tree.get_layout(a).is_ok());
}

#[test]
fn child_from_another_tree_fails() {
    let mut first = LayoutTree::new();
    let mut second = LayoutTree::new();
    let _ = leaf(&mut first, "width: auto");
    let foreign = leaf(&mut first, "width: auto");
    let root = leaf(&mut second, "width: auto");
    let r = second.set_children(root, Some(&vec![foreign]));
    assert_eq!(r, Err(Failure::InvalidChildNode(foreign.bits())));
    assert_eq!(r.unwrap_err().status(), Status::InvalidArgument);
    assert_eq!(second.node_count(), 1);
    assert_eq!(first.node_count(), 2);
}

#[test]
fn missing_style_adds_no_node() {
    let mut tree = LayoutTree::new();
    let _ = leaf(&mut tree, "width: auto");
    let r = tree.new_leaf(None);
    assert_eq!(r, Err(Failure::MissingReference));
    assert_eq!(r.unwrap_err().status(), Status::InvalidArgument);
    assert_eq!(tree.node_count(), 1);
}

#[test]
fn set_children_failures() {
    let mut tree = LayoutTree::new();
    let a = leaf(&mut tree, "width: auto");
    let b = leaf(&mut tree, "width: auto");
    let c = leaf(&mut tree, "width: auto");
    let stranger = NodeHandle::from_bits(a.bits() ^ 0xffff_0000_0000);
    assert_eq!(tree.set_children(a, None), Err(Failure::MissingReference));
    assert_eq!(tree.set_children(stranger, Some(&vec![b])), Err(Failure::InvalidParentNode(stranger.bits())));
    assert_eq!(tree.set_children(a, Some(&vec![b, stranger, c])), Err(Failure::InvalidChildNode(stranger.bits())));
    assert_eq!(tree.set_children(a, Some(&vec![a])), Err(Failure::CyclicChildren(a.bits())));
    tree.set_children(a, Some(&vec![b])).unwrap();
    tree.set_children(b, Some(&vec![c])).unwrap();
    assert_eq!(tree.set_children(c, Some(&vec![a])), Err(Failure::CyclicChildren(c.bits())));
    // a node may have several parents, and children may be cleared
    tree.set_children(c, Some(&vec![])).unwrap();
    tree.set_children(a, Some(&vec![b, c])).unwrap();
    tree.compute_layout(a, sized(100, 100)).unwrap();
    assert!(tree.get_layout(c).is_ok());
}

#[test]
fn layout_reaches_only_the_subtree() {
    let mut tree = LayoutTree::new();
    let root = leaf(&mut tree, "width: 50px;height: 50px");
    let child = leaf(&mut tree, "width: 10px;height: 10px");
    let other = leaf(&mut tree, "width: 10px;height: 10px");
    let r = tree.get_layout(root).err();
    assert_eq!(r, Some(Failure::NotLaidOut(root.bits())));
    assert_eq!(r.unwrap().status(), Status::OutOfBounds);
    tree.set_children(root, Some(&vec![child])).unwrap();
    tree.compute_layout(root, sized(-1, -1)).unwrap();
    assert_eq!(tree.get_layout(root).unwrap().size.width, 50.0);
    assert_eq!(tree.get_layout(child).unwrap().size.width, 10.0);
    assert_eq!(tree.get_layout(other).err(), Some(Failure::NotLaidOut(other.bits())));
    let stranger = NodeHandle::from_bits(0);
    assert_eq!(tree.get_layout(stranger).err(), Some(Failure::InvalidInputNode(0)));
    assert_eq!(tree.compute_layout(stranger, sized(1, 1)), Err(Failure::InvalidInputNode(0)));
}

#[test]
fn space_from_pixels() {
    assert_eq!(available_space(800), Space::Definite(800));
    assert_eq!(available_space(0), Space::Definite(0));
    assert_eq!(available_space(-1), Space::MaxContent);
    assert_eq!(available_space(i32::MIN), Space::MaxContent);
    assert_eq!(available_space(i32::MAX), Space::Definite(2147483647));
}

#[test]
fn layout_reads_agree_and_passes_repeat() {
    let mut tree = LayoutTree::new();
    let root = leaf(&mut tree, "flex-wrap: wrap;width: 300px;height: 200px");
    let kids: Vec<NodeHandle> = (0..5).map(|_| leaf(&mut tree, "margin: 5px;width: 80px;height: 40px")).collect();
    tree.set_children(root, Some(&kids)).unwrap();
    tree.compute_layout(root, sized(300, 200)).unwrap();
    let read = |t: &LayoutTree, n: NodeHandle| {
        let l = t.get_layout(n).unwrap();
        (l.order, l.size.width, l.size.height, l.location.x, l.location.y)
    };
    let first: Vec<_> = kids.iter().map(|k| read(&tree, *k)).collect();
    let again: Vec<_> = kids.iter().map(|k| read(&tree, *k)).collect();
    assert_eq!(first, again);
    // two wrapped lines, stretched to share the 200px height
    assert_eq!(first[3], (3, 80.0, 40.0, 5.0, 105.0));
    tree.compute_layout(root, sized(300, 200)).unwrap();
    let second: Vec<_> = kids.iter().map(|k| read(&tree, *k)).collect();
    assert_eq!(first, second);
}
