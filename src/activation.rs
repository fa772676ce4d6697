use vstd::prelude::*;
use crate::failure::Failure;

verus! {

/// The activatable classes of the component.
#[derive(Clone, Copy, Debug, PartialEq, Eq, Structural)]
pub enum ClassKind {
    /// The layout tree engine.
    Tree,
    /// The style parser.
    Style,
}

/// The runtime class name of the layout tree engine.
pub const TREE_CLASS_NAME: &'static str = "Chewy.ChewyTaffy";

/// The runtime class name of the style object.
pub const STYLE_CLASS_NAME: &'static str = "Chewy.ChewyStyle";

/// The class that a runtime class name selects, if any.
pub open spec fn class_of(name: Seq<char>) -> Option<ClassKind> {
    if name == TREE_CLASS_NAME@ {
        Some(ClassKind::Tree)
    } else if name == STYLE_CLASS_NAME@ {
        Some(ClassKind::Style)
    } else {
        None
    }
}

fn same_text(a: &str, b: &str) -> (r: bool)
    ensures
        r == (a@ == b@),
{
    let n = a.unicode_len();
    if n != b.unicode_len() {
        return false;
    }
    let mut i: usize = 0;
    while i < n
        invariant
            n == a@.len(),
            n == b@.len(),
            i <= n,
            forall|j: int| 0 <= j < i ==> a@[j] == b@[j],
        decreases n - i,
    {
        if a.get_char(i) != b.get_char(i) {
            return false;
        }
        i += 1;
    }
    assert(a@ =~= b@);
    true
}

/// Routes an activation request: the class whose runtime name is `name`,
/// or `UnknownClass` for any other name.
pub fn get_activation_factory(name: &str) -> (r: Result<ClassKind, Failure>)
    ensures
        class_of(name@) is Some ==> r == Ok::<ClassKind, Failure>(class_of(name@)->Some_0),
        class_of(name@) is None ==> r == Err::<ClassKind, Failure>(Failure::UnknownClass),
{
    if same_text(name, TREE_CLASS_NAME) {
        Ok(ClassKind::Tree)
    } else if same_text(name, STYLE_CLASS_NAME) {
        Ok(ClassKind::Style)
    } else {
        Err(Failure::UnknownClass)
    }
}

} // verus!
