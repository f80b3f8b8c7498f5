use vstd::prelude::*;

verus! {

/// The size and alignment that a request for memory asks for.
#[derive(Clone, Copy, Debug)]
pub struct Layout {
    size: usize,
    align: usize,
}

/// Why `Layout::from_size_align` refused its arguments.
#[derive(Clone, Copy, Debug)]
pub struct LayoutError;

/// The plain values of a `Layout`.
pub struct LayoutView {
    pub size: usize,
    pub align: usize,
}

impl View for Layout {
    type V = LayoutView;

    closed spec fn view(&self) -> LayoutView {
        LayoutView { size: self.size, align: self.align }
    }
}

/// Asks the standard library whether it accepts `size` and `align` as a
/// layout.
///
/// Calls `core::alloc::Layout::from_size_align`. Its documentation states
/// that it succeeds exactly when `align` is a power of two and `size`,
/// rounded up to a multiple of `align`, does not exceed `isize::MAX`; this
/// contract claims that of it, in the form of vstd's `valid_layout`.
#[verifier::external_body]
fn std_accepts_layout(size: usize, align: usize) -> (ok: bool)
    ensures
        ok == vstd::layout::valid_layout(size, align),
{
    core::alloc::Layout::from_size_align(size, align).is_ok()
}

impl Layout {
    #[verifier::type_invariant]
    closed spec fn inv(self) -> bool {
        vstd::layout::valid_layout(self.size, self.align)
    }

    /// A layout of `size` bytes aligned to `align`; an error when `align` is
    /// not a power of two, or `size` rounded up to a multiple of `align`
    /// exceeds `isize::MAX`.
    pub fn from_size_align(size: usize, align: usize) -> (r: Result<Layout, LayoutError>)
        ensures
            r is Ok <==> vstd::layout::valid_layout(size, align),
            r matches Ok(l) ==> l@.size == size && l@.align == align,
    {
        if std_accepts_layout(size, align) {
            Ok(Layout { size, align })
        } else {
            Err(LayoutError)
        }
    }

    /// The number of bytes asked for.
    pub fn size(&self) -> (r: usize)
        ensures
            r == self@.size,
    {
        self.size
    }

    /// The alignment asked for: a power of two.
    pub fn align(&self) -> (r: usize)
        ensures
            r == self@.align,
            vstd::layout::valid_layout(self@.size, self@.align),
    {
        proof {
            use_type_invariant(self);
        }
        self.align
    }
}

} // verus!
