use vstd::prelude::*;

verus! {

/// The tag distinguishing what a [`Layout`] node describes: a struct of
/// named fields, a count-prefixed array, a length-prefixed string, or one
/// fixed-width primitive.
#[derive(Clone, Copy, Debug, PartialEq, Eq, Structural)]
pub enum LayoutKind {
    Array,
    Struct,
    String,
    Bool,
    U8,
    U16,
    U32,
    U64,
    I8,
    I16,
    I32,
    I64,
    F32,
    F64,
}

/// A node in a schema tree describing how one encoded value's bytes are
/// structured.
///
/// `name` is meaningful only when the node is a field of a `Struct` layout;
/// for array element layouts and the document root it is an arbitrary label.
/// `fields` is `Some` exactly for `Struct` (one child per field, in binary
/// order) and `Array` (exactly one child, the element layout); see
/// [`Layout::well_formed`]. A layout tree is never mutated once built; every
/// encode or decode call reads it only.
#[derive(Debug)]
pub struct Layout {
    pub name: String,
    pub kind: LayoutKind,
    pub fields: Option<Vec<Layout>>,
}

/// A type that can report the layout of its own binary encoding.
///
/// The library never implements this trait itself; it exists for callers
/// whose types know their layout (derived or declared by hand).
pub trait HasLayout {
    fn get_layout() -> Layout;
    fn get_name(&self) -> String;
}

impl Layout {
    /// The structural invariant of a layout tree: an `Array` has exactly one
    /// child, a `Struct` has a child per field with pairwise-distinct field
    /// names, and every other kind has no children.
    pub open spec fn well_formed(self) -> bool
        decreases self,
    {
        match self.kind {
            LayoutKind::Struct => match self.fields {
                Option::Some(fs) => {
                    &&& (forall|i: int|
                        0 <= i < fs@.len() ==> (#[trigger] fs@[i]).well_formed())
                    &&& (forall|i: int, j: int|
                        0 <= i < j < fs@.len() ==> (#[trigger] fs@[i]).name@ != (
                        #[trigger] fs@[j]).name@)
                },
                Option::None => false,
            },
            LayoutKind::Array => match self.fields {
                Option::Some(fs) => fs@.len() == 1 && fs@[0].well_formed(),
                Option::None => false,
            },
            _ => self.fields is None,
        }
    }
}

/// Structural equality of two layout trees: same name, same kind, and the
/// same children, recursively.
pub open spec fn layouts_equal(a: Layout, b: Layout) -> bool
    decreases a,
{
    &&& a.name@ == b.name@
    &&& a.kind == b.kind
    &&& match (a.fields, b.fields) {
        (Option::None, Option::None) => true,
        (Option::Some(x), Option::Some(y)) => {
            &&& x@.len() == y@.len()
            &&& (forall|i: int|
                0 <= i < x@.len() ==> layouts_equal(#[trigger] x@[i], y@[i]))
        },
        _ => false,
    }
}

/// Decides [`layouts_equal`] on two layout trees.
pub fn layout_eq(a: &Layout, b: &Layout) -> (r: bool)
    ensures
        r == layouts_equal(*a, *b),
    decreases *a,
{
    if a.name != b.name {
        return false;
    }
    if a.kind != b.kind {
        return false;
    }
    match (&a.fields, &b.fields) {
        (Option::None, Option::None) => true,
        (Option::Some(x), Option::Some(y)) => {
            if x.len() != y.len() {
                return false;
            }
            for i in 0..x.len()
                invariant
                    x@.len() == y@.len(),
                    a.fields == Option::Some(*x),
                    b.fields == Option::Some(*y),
                    forall|j: int| 0 <= j < i ==> layouts_equal(#[trigger] x@[j], y@[j]),
            {
                proof {
                    assert(decreases_to!(*a => a.fields));
                    assert(decreases_to!(a.fields => a.fields->Some_0));
                    assert(decreases_to!(a.fields->Some_0 => a.fields->Some_0@));
                    assert(decreases_to!(a.fields->Some_0@ => a.fields->Some_0@[i as int]));
                    assert(a.fields->Some_0@[i as int] == x@[i as int]);
                }
                if !layout_eq(&x[i], &y[i]) {
                    return false;
                }
            }
            true
        },
        _ => false,
    }
}

impl PartialEq for Layout {
    fn eq(&self, other: &Layout) -> (r: bool) {
        layout_eq(self, other)
    }
}

impl vstd::std_specs::cmp::PartialEqSpecImpl for Layout {
    open spec fn obeys_eq_spec() -> bool {
        true
    }

    open spec fn eq_spec(&self, other: &Layout) -> bool {
        layouts_equal(*self, *other)
    }
}

} // verus!
