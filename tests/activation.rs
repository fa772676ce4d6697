use chewy::activation::{get_activation_factory, ClassKind, STYLE_CLASS_NAME, TREE_CLASS_NAME};
use chewy::failure::{Failure, Status};

#[test]
fn known_classes_activate() {
    assert_eq!(get_activation_factory("Chewy.ChewyTaffy"), Ok(ClassKind::Tree));
    assert_eq!(get_activation_factory("Chewy.ChewyStyle"), Ok(ClassKind::Style));
    assert_eq!(get_activation_factory(TREE_CLASS_NAME), Ok(ClassKind::Tree));
    assert_eq!(get_activation_factory(STYLE_CLASS_NAME), Ok(ClassKind::Style));
}

#[test]
fn unknown_class_is_invalid_argument() {
    for name in ["", "Chewy.ChewyTaffyX", "chewy.chewytaffy", "Chewy.ChewyStyl", "Windows.Foundation.Uri"] {
        let r = get_activation_factory(name);
        assert_eq!(r, Err(Failure::UnknownClass));
        assert_eq!(r.unwrap_err().status(), Status::InvalidArgument);
    }
}

#[test]
fn failure_statuses() {
    let bounds = Failure::ChildIndexOutOfBounds { parent: 1, child_index: 3, child_count: 2 };
    assert_eq!(bounds.status(), Status::OutOfBounds);
    assert_eq!(Failure::NotLaidOut(5).status(), Status::OutOfBounds);
    for f in [
        Failure::InvalidParentNode(1),
        Failure::InvalidChildNode(2),
        Failure::InvalidInputNode(3),
        Failure::CyclicChildren(4),
        Failure::MalformedStyle,
        Failure::MissingReference,
        Failure::UnknownClass,
    ] {
        assert_eq!(f.status(), Status::InvalidArgument);
    }
    assert_eq!(chewy::failure::to_status::<u8>(Ok(7)), Ok(7));
    assert_eq!(chewy::failure::to_status::<u8>(Err(bounds)), Err(Status::OutOfBounds));
}
