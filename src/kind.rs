use vstd::prelude::*;

verus! {

/// The polytope families the builder knows.
#[derive(Clone, Copy, Debug, PartialEq, Eq, Structural)]
pub enum ShapeKind {
    Cube,
    Simplex,
    Orthoplex,
}

/// Why a shape could not be built.
#[derive(Debug)]
pub enum ShapeError {
    /// The requested kind is none of the known families; holds the name given.
    UnsupportedShapeKind(String),
    /// No orthonormal basis of the required size could be formed for a simplex.
    DegenerateBasis,
}

/// The family named by `name`, if any.
pub open spec fn kind_named(name: Seq<char>) -> Option<ShapeKind> {
    if name == "cube"@ {
        Some(ShapeKind::Cube)
    } else if name == "simplex"@ {
        Some(ShapeKind::Simplex)
    } else if name == "orthoplex"@ {
        Some(ShapeKind::Orthoplex)
    } else {
        None
    }
}

/// Character-wise equality of two string slices.
fn same_text(a: &str, b: &str) -> (r: bool)
    ensures
        r == (a@ == b@),
{
    let n = a.unicode_len();
    if n != b.unicode_len() {
        return false;
    }
    let mut i: usize = 0;
    while i < n
        invariant
            n == a@.len(),
            n == b@.len(),
            i <= n,
            forall|k: int| 0 <= k < i ==> a@[k] == b@[k],
        decreases n - i,
    {
        if a.get_char(i) != b.get_char(i) {
            return false;
        }
        i += 1;
    }
    assert(a@ =~= b@);
    true
}

/// Reads a shape kind from its name: `"cube"`, `"simplex"` or `"orthoplex"`.
/// Any other name is refused with `UnsupportedShapeKind` carrying that name.
pub fn parse_shape_kind(name: &str) -> (r: Result<ShapeKind, ShapeError>)
    ensures
        match r {
            Ok(k) => kind_named(name@) == Some(k),
            Err(ShapeError::UnsupportedShapeKind(s)) => kind_named(name@).is_none() && s@ == name@,
            Err(ShapeError::DegenerateBasis) => false,
        },
{
    if same_text(name, "cube") {
        Ok(ShapeKind::Cube)
    } else if same_text(name, "simplex") {
        Ok(ShapeKind::Simplex)
    } else if same_text(name, "orthoplex") {
        Ok(ShapeKind::Orthoplex)
    } else {
        Err(ShapeError::UnsupportedShapeKind(name.to_owned()))
    }
}

} // verus!
