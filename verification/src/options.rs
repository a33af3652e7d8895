//! Options and the overloaded step argument.

use vstd::prelude::*;

use crate::value::{Item, ItemModel};

verus! {

/// A per-element formatter: `(value, index) -> item`.
///
/// For numeric ranges `value` is the numeric element. For letter ranges `value`
/// is the character code as a number. `index` is the zero-based position.
/// Any `Fn(Item, usize) -> Item` closure is a transform.
pub trait Transform {
    /// True when the transform may be called with `value` at position `index`.
    spec fn accepts(&self, value: ItemModel, index: int) -> bool;

    /// True when `r` is a result this transform may give for `value` at
    /// position `index`.
    spec fn gives(&self, value: ItemModel, index: int, r: ItemModel) -> bool;

    /// Format the element `value` at position `index`.
    fn call(&self, value: Item, index: usize) -> (r: Item)
        requires
            self.accepts(value@, index as int),
        ensures
            self.gives(value@, index as int, r@),
    ;
}

/// Run a caller's closure on `(value, index)`, which its precondition
/// admits. The result is one that the closure's postcondition allows; nothing
/// more is known of it, since the closure is the caller's code.
#[verifier::external_body]
fn call_closure<F: Fn(Item, usize) -> Item>(f: &F, value: Item, index: usize) -> (r: Item)
    requires
        call_requires(*f, (value, index)),
    ensures
        call_ensures(*f, (value, index), r),
{
    f(value, index)
}

impl<F: Fn(Item, usize) -> Item> Transform for F {
    /// The closure's precondition holds for every argument that stands for
    /// `value`.
    open spec fn accepts(&self, value: ItemModel, index: int) -> bool {
        forall|x: Item| x@ == value ==> call_requires(*self, (x, index as usize))
    }

    /// A result the closure's postcondition allows for `(value, index)`.
    open spec fn gives(&self, value: ItemModel, index: int, r: ItemModel) -> bool {
        exists|x: Item, y: Item|
            x@ == value && y@ == r && call_ensures(*self, (x, index as usize), y)
    }

    /// The closure's result for `(value, index)`.
    fn call(&self, value: Item, index: usize) -> (r: Item)
        ensures
            call_ensures(*self, (value, index), r),
    {
        call_closure(self, value, index)
    }
}

/// Settings that control range generation. All fields default to off.
pub struct Options {
    /// Increment to use when the step argument is absent.
    pub step: Option<i64>,
    /// Report invalid input as an error instead of returning an empty list.
    pub strict_ranges: bool,
    /// Force numeric output to strings.
    pub stringify: bool,
    /// Return a regex source string instead of a list.
    pub to_regex: bool,
    /// Wrap regex alternations in a non-capturing group.
    pub wrap: bool,
    /// Wrap regex alternations in a capturing group. Implies `wrap`.
    pub capture: bool,
    /// Forbid optional leading zeros in padded regex output.
    pub strict_zeros: bool,
    /// Emit `\d` instead of `[0-9]` in regex output.
    pub shorthand: bool,
    /// Per-element formatter that replaces the default.
    pub transform: Option<Box<dyn Transform>>,
}

/// The settings of an [`Options`] value; of the transform only whether there
/// is one.
pub struct OptionsModel {
    pub step: Option<i64>,
    pub strict_ranges: bool,
    pub stringify: bool,
    pub to_regex: bool,
    pub wrap: bool,
    pub capture: bool,
    pub strict_zeros: bool,
    pub shorthand: bool,
    pub has_transform: bool,
}

impl View for Options {
    type V = OptionsModel;

    open spec fn view(&self) -> OptionsModel {
        OptionsModel {
            step: self.step,
            strict_ranges: self.strict_ranges,
            stringify: self.stringify,
            to_regex: self.to_regex,
            wrap: self.wrap,
            capture: self.capture,
            strict_zeros: self.strict_zeros,
            shorthand: self.shorthand,
            has_transform: self.transform is Some,
        }
    }
}

/// Everything off.
pub open spec fn default_options() -> OptionsModel {
    OptionsModel {
        step: None,
        strict_ranges: false,
        stringify: false,
        to_regex: false,
        wrap: false,
        capture: false,
        strict_zeros: false,
        shorthand: false,
        has_transform: false,
    }
}

impl Options {
    /// A fresh options value with everything off.
    pub fn new() -> (o: Self)
        ensures
            o@ == default_options(),
    {
        Options {
            step: None,
            strict_ranges: false,
            stringify: false,
            to_regex: false,
            wrap: false,
            capture: false,
            strict_zeros: false,
            shorthand: false,
            transform: None,
        }
    }
}

impl Default for Options {
    fn default() -> (o: Self)
        ensures
            o@ == default_options(),
    {
        Options::new()
    }
}

/// The step argument, overloaded by runtime type: absent, a number, a numeric
/// string, a transform in step position, or an options value in step position.
pub enum Step {
    /// No step given.
    Absent,
    /// A numeric step.
    Num(i64),
    /// A string step such as `"2"` or `"-2"`.
    Str(String),
    /// A transform passed where a step would go. It becomes the only option.
    Func(Box<dyn Transform>),
    /// An options value passed where a step would go. It replaces the options.
    Opts(Options),
}

/// The mathematical content of a [`Step`].
pub enum StepModel {
    Absent,
    Num(i64),
    Str(Seq<char>),
    Func,
    Opts(OptionsModel),
}

impl View for Step {
    type V = StepModel;

    open spec fn view(&self) -> StepModel {
        match self {
            Step::Absent => StepModel::Absent,
            Step::Num(n) => StepModel::Num(*n),
            Step::Str(s) => StepModel::Str(s@),
            Step::Func(_) => StepModel::Func,
            Step::Opts(o) => StepModel::Opts(o@),
        }
    }
}

impl vstd::std_specs::convert::FromSpecImpl<i64> for Step {
    open spec fn obeys_from_spec() -> bool {
        true
    }

    open spec fn from_spec(v: i64) -> Step {
        Step::Num(v)
    }
}

impl From<i64> for Step {
    fn from(n: i64) -> (s: Step)
        ensures
            s == Step::Num(n),
    {
        Step::Num(n)
    }
}

impl vstd::std_specs::convert::FromSpecImpl<&str> for Step {
    open spec fn obeys_from_spec() -> bool {
        false
    }

    open spec fn from_spec(v: &str) -> Step {
        Step::Str(choose|s: String| s@ == v@)
    }
}

impl From<&str> for Step {
    fn from(s: &str) -> (r: Step)
        ensures
            r@ == StepModel::Str(s@),
    {
        Step::Str(String::from_str(s))
    }
}

impl vstd::std_specs::convert::FromSpecImpl<Options> for Step {
    open spec fn obeys_from_spec() -> bool {
        true
    }

    open spec fn from_spec(v: Options) -> Step {
        Step::Opts(v)
    }
}

impl From<Options> for Step {
    fn from(o: Options) -> (s: Step)
        ensures
            s == Step::Opts(o),
    {
        Step::Opts(o)
    }
}

} // verus!
