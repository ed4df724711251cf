//! Layout rules of GUI widgets that pick one of the quantities a widget is
//! laid out from.
use vstd::prelude::*;

verus! {

/// What a widget is laid out from: the size and the offset of its parent.
#[derive(Debug, Clone, Copy, PartialEq, Eq, Default)]
pub struct WidgetLayout<T> {
    pub size: T,
    pub offset: T,
}

/// A rule that computes one quantity of a widget from its parent's layout
/// and from the size computed so far for the widget itself.
pub trait GuiCalc<T> {
    /// What the rule yields.
    spec fn spec_reduce(&self, base: WidgetLayout<T>, self_size: T) -> T;

    /// Applies the rule.
    fn reduce(&self, base: &WidgetLayout<T>, self_size: T) -> (r: T)
        ensures
            r == self.spec_reduce(*base, self_size),
    ;
}

/// The parent's size.
#[derive(Debug, Clone, Copy, PartialEq, Eq, PartialOrd, Ord, Hash, Default)]
pub struct BaseSize;

/// The parent's offset.
#[derive(Debug, Clone, Copy, PartialEq, Eq, PartialOrd, Ord, Hash, Default)]
pub struct BaseOffset;

/// The size computed so far for the widget itself.
#[derive(Debug, Clone, Copy, PartialEq, Eq, PartialOrd, Ord, Hash, Default)]
pub struct SelfSize;

impl<T: Copy> GuiCalc<T> for BaseSize {
    open spec fn spec_reduce(&self, base: WidgetLayout<T>, self_size: T) -> T {
        base.size
    }

    fn reduce(&self, base: &WidgetLayout<T>, self_size: T) -> (r: T) {
        base.size
    }
}

impl<T: Copy> GuiCalc<T> for BaseOffset {
    open spec fn spec_reduce(&self, base: WidgetLayout<T>, self_size: T) -> T {
        base.offset
    }

    fn reduce(&self, base: &WidgetLayout<T>, self_size: T) -> (r: T) {
        base.offset
    }
}

impl<T: Copy> GuiCalc<T> for SelfSize {
    open spec fn spec_reduce(&self, base: WidgetLayout<T>, self_size: T) -> T {
        self_size
    }

    fn reduce(&self, base: &WidgetLayout<T>, self_size: T) -> (r: T) {
        self_size
    }
}

/// The rule that gives a widget its parent's size.
pub fn inherit_size() -> (r: BaseSize)
    ensures
        r == BaseSize,
{
    BaseSize
}

/// The rule that gives a widget its parent's offset.
pub fn inherit_offset() -> (r: BaseOffset)
    ensures
        r == BaseOffset,
{
    BaseOffset
}

} // verus!
