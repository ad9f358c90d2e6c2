//! The environment: the names that an expression may use, and the angle
//! mode of the trigonometric functions.

use vstd::prelude::*;
use vstd::string::*;

verus! {

/// The unit of angles.
#[derive(Clone, Copy, Debug, PartialEq, Eq, Structural)]
pub enum AngleMode {
    Deg,
    Rad,
}

/// The label of an angle mode.
pub open spec fn angle_mode_label(mode: AngleMode) -> Seq<char> {
    match mode {
        AngleMode::Deg => "Deg"@,
        AngleMode::Rad => "Rad"@,
    }
}

impl AngleMode {
    /// Whether angles are in degrees.
    pub fn is_deg(&self) -> (r: bool)
        ensures
            r == (*self == AngleMode::Deg),
    {
        match self {
            AngleMode::Deg => true,
            AngleMode::Rad => false,
        }
    }

    /// The other mode.
    pub open spec fn complement(self) -> AngleMode {
        match self {
            AngleMode::Deg => AngleMode::Rad,
            AngleMode::Rad => AngleMode::Deg,
        }
    }

    /// The label of the mode.
    pub fn to_string(&self) -> (r: String)
        ensures
            r@ == angle_mode_label(*self),
    {
        match self {
            AngleMode::Deg => String::from_str("Deg"),
            AngleMode::Rad => String::from_str("Rad"),
        }
    }
}

impl vstd::std_specs::ops::NotSpecImpl for AngleMode {
    open spec fn obeys_not_spec() -> bool {
        true
    }

    open spec fn not_req(self) -> bool {
        true
    }

    open spec fn not_spec(self) -> AngleMode {
        self.complement()
    }
}

impl core::ops::Not for AngleMode {
    type Output = AngleMode;

    fn not(self) -> (r: AngleMode) {
        match self {
            AngleMode::Deg => AngleMode::Rad,
            AngleMode::Rad => AngleMode::Deg,
        }
    }
}

/// The complement of the complement of a mode is the mode.
pub proof fn lemma_complement_involution(mode: AngleMode)
    ensures
        mode.complement().complement() == mode,
        mode.complement() != mode,
{
}

/// A function of one argument that an expression may call.
#[derive(Clone, Copy, Debug, PartialEq, Eq, Structural)]
pub enum Function {
    Sin,
    Cos,
    Tan,
    Asin,
    Acos,
    Atan,
    Ceil,
    Floor,
    Round,
    Ln,
    Log,
    Abs,
    Sqrt,
}

impl Function {
    /// Whether the argument of the function is an angle.
    pub open spec fn angle_in(self) -> bool {
        self == Function::Sin || self == Function::Cos || self == Function::Tan
    }

    /// Whether the result of the function is an angle.
    pub open spec fn angle_out(self) -> bool {
        self == Function::Asin || self == Function::Acos || self == Function::Atan
    }

    /// Whether the argument is converted from degrees to radians before
    /// the function is applied in the given mode.
    pub fn converts_argument(&self, mode: AngleMode) -> (r: bool)
        ensures
            r == (self.angle_in() && mode == AngleMode::Deg),
    {
        match self {
            Function::Sin | Function::Cos | Function::Tan => mode.is_deg(),
            _ => false,
        }
    }

    /// Whether the result is converted from radians to degrees after the
    /// function has been applied in the given mode.
    pub fn converts_result(&self, mode: AngleMode) -> (r: bool)
        ensures
            r == (self.angle_out() && mode == AngleMode::Deg),
    {
        match self {
            Function::Asin | Function::Acos | Function::Atan => mode.is_deg(),
            _ => false,
        }
    }
}

/// What a name stands for: a constant, given by its decimal literal, or a
/// function.
#[derive(Debug, PartialEq, Eq)]
pub enum VariableValue {
    Constant(String),
    Function(Function),
}

/// The mathematical value of a binding.
pub enum VariableValueView {
    Constant(Seq<char>),
    Function(Function),
}

impl View for VariableValue {
    type V = VariableValueView;

    open spec fn view(&self) -> VariableValueView {
        match self {
            VariableValue::Constant(text) => VariableValueView::Constant(text@),
            VariableValue::Function(f) => VariableValueView::Function(*f),
        }
    }
}

/// The bindings of a list of entries, where a later entry overrides an
/// earlier one of the same name.
pub open spec fn bindings(entries: Seq<(String, VariableValue)>) -> Map<
    Seq<char>,
    VariableValueView,
>
    decreases entries.len(),
{
    if entries.len() == 0 {
        Map::empty()
    } else {
        bindings(entries.drop_last()).insert(entries.last().0@, entries.last().1@)
    }
}

/// A table from names to what they stand for.
#[derive(Debug)]
pub struct VarMap {
    entries: Vec<(String, VariableValue)>,
}

impl View for VarMap {
    type V = Map<Seq<char>, VariableValueView>;

    closed spec fn view(&self) -> Map<Seq<char>, VariableValueView> {
        bindings(self.entries@)
    }
}

impl VarMap {
    /// The empty table.
    pub fn new() -> (m: Self)
        ensures
            m@ == Map::<Seq<char>, VariableValueView>::empty(),
    {
        VarMap { entries: Vec::new() }
    }

    /// Binds `name` to `value`; an earlier binding of the name is overridden.
    pub fn insert(&mut self, name: String, value: VariableValue)
        ensures
            final(self)@ == old(self)@.insert(name@, value@),
    {
        self.entries.push((name, value));
        assert(self.entries@.drop_last() =~= old(self).entries@);
    }

    /// What `name` stands for, if anything.
    pub fn get(&self, name: &str) -> (r: Option<&VariableValue>)
        ensures
            match r {
                Some(value) => self@.contains_key(name@) && self@[name@] == value@,
                None => !self@.contains_key(name@),
            },
    {
        let key = String::from_str(name);
        let mut k: usize = self.entries.len();
        assert(self.entries@.subrange(0, k as int) =~= self.entries@);
        while k > 0
            invariant
                k <= self.entries.len(),
                key@ == name@,
                self@.contains_key(name@) == bindings(
                    self.entries@.subrange(0, k as int),
                ).contains_key(name@),
                self@.contains_key(name@) ==> self@[name@] == bindings(
                    self.entries@.subrange(0, k as int),
                )[name@],
            decreases k,
        {
            let ghost prefix = self.entries@.subrange(0, k as int);
            assert(prefix.drop_last() =~= self.entries@.subrange(0, k - 1));
            assert(prefix.last() == self.entries@[k - 1]);
            k -= 1;
            if self.entries[k].0 == key {
                return Some(&self.entries[k].1);
            }
        }
        None
    }
}


/// The bindings of the default environment: the constants `pi` and `e`,
/// each by the shortest decimal literal that denotes its double, and the
/// functions under their names.
pub open spec fn default_bindings() -> Map<Seq<char>, VariableValueView> {
    Map::<Seq<char>, VariableValueView>::empty().insert(
        "pi"@,
        VariableValueView::Constant("3.141592653589793"@),
    ).insert("e"@, VariableValueView::Constant("2.718281828459045"@)).insert(
        "sin"@,
        VariableValueView::Function(Function::Sin),
    ).insert("cos"@, VariableValueView::Function(Function::Cos)).insert(
        "tan"@,
        VariableValueView::Function(Function::Tan),
    ).insert("asin"@, VariableValueView::Function(Function::Asin)).insert(
        "acos"@,
        VariableValueView::Function(Function::Acos),
    ).insert("atan"@, VariableValueView::Function(Function::Atan)).insert(
        "ceil"@,
        VariableValueView::Function(Function::Ceil),
    ).insert("floor"@, VariableValueView::Function(Function::Floor)).insert(
        "round"@,
        VariableValueView::Function(Function::Round),
    ).insert("ln"@, VariableValueView::Function(Function::Ln)).insert(
        "log"@,
        VariableValueView::Function(Function::Log),
    ).insert("abs"@, VariableValueView::Function(Function::Abs)).insert(
        "sqrt"@,
        VariableValueView::Function(Function::Sqrt),
    )
}

/// The default environment.
pub fn default_vars() -> (m: VarMap)
    ensures
        m@ == default_bindings(),
{
    let mut m = VarMap::new();
    m.insert(String::from_str("pi"), VariableValue::Constant(String::from_str("3.141592653589793")));
    m.insert(String::from_str("e"), VariableValue::Constant(String::from_str("2.718281828459045")));
    m.insert(String::from_str("sin"), VariableValue::Function(Function::Sin));
    m.insert(String::from_str("cos"), VariableValue::Function(Function::Cos));
    m.insert(String::from_str("tan"), VariableValue::Function(Function::Tan));
    m.insert(String::from_str("asin"), VariableValue::Function(Function::Asin));
    m.insert(String::from_str("acos"), VariableValue::Function(Function::Acos));
    m.insert(String::from_str("atan"), VariableValue::Function(Function::Atan));
    m.insert(String::from_str("ceil"), VariableValue::Function(Function::Ceil));
    m.insert(String::from_str("floor"), VariableValue::Function(Function::Floor));
    m.insert(String::from_str("round"), VariableValue::Function(Function::Round));
    m.insert(String::from_str("ln"), VariableValue::Function(Function::Ln));
    m.insert(String::from_str("log"), VariableValue::Function(Function::Log));
    m.insert(String::from_str("abs"), VariableValue::Function(Function::Abs));
    m.insert(String::from_str("sqrt"), VariableValue::Function(Function::Sqrt));
    m
}

} // verus!
