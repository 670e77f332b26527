//! Predicates over signals, the conjunctions ("invariants") and disjunctions
//! built from them, their mathematical views and their text forms.
use vstd::prelude::*;
use vstd::string::*;
use std::collections::HashSet;
use std::collections::HashMap;
use crate::data_types::general_data_types::{SignalTypesSet, SignalType, SignalInfo, spec_signal_name, BitSetWrapper};
use crate::constants::PredicateTakeLimits;
use crate::text::{i64_to_decimal, int_decimal, spec_join, lemma_join_step, decimal_parts, join_decimals};
use vstd::std_specs::cmp::PartialEqSpecImpl;

verus! {

broadcast use vstd::std_specs::hash::group_hash_axioms;

/// Comparison operator of a predicate.
#[derive(PartialEq, Eq, Debug, Clone, Copy, Structural, Hash)]
pub enum Operator {
    Equal,
    NotEqual,
    GreaterEqual,
    SmallerEqual,
}

impl Default for Operator {
    fn default() -> (r: Self)
        ensures
            r == Operator::Equal,
    {
        Operator::Equal
    }
}

/// The operator a predicate is turned into by `get_inverse`.
pub open spec fn spec_inverse_operator(op: Operator) -> Operator {
    match op {
        Operator::Equal => Operator::NotEqual,
        Operator::NotEqual => Operator::Equal,
        Operator::GreaterEqual => Operator::SmallerEqual,
        Operator::SmallerEqual => Operator::GreaterEqual,
    }
}

/// How an operator is written.
pub open spec fn spec_operator_text(op: Operator) -> Seq<char> {
    match op {
        Operator::Equal => "=="@,
        Operator::NotEqual => "!="@,
        Operator::GreaterEqual => ">="@,
        Operator::SmallerEqual => "<="@,
    }
}

pub fn inverse_operator(op: Operator) -> (r: Operator)
    ensures
        r == spec_inverse_operator(op),
{
    match op {
        Operator::Equal => Operator::NotEqual,
        Operator::NotEqual => Operator::Equal,
        Operator::GreaterEqual => Operator::SmallerEqual,
        Operator::SmallerEqual => Operator::GreaterEqual,
    }
}

pub fn operator_text(op: Operator) -> (r: &'static str)
    ensures
        r@ == spec_operator_text(op),
{
    match op {
        Operator::Equal => "==",
        Operator::NotEqual => "!=",
        Operator::GreaterEqual => ">=",
        Operator::SmallerEqual => "<=",
    }
}

impl Operator {
    /// All four operators, in declaration order.
    pub fn iterator() -> (r: Vec<Operator>)
        ensures
            r@ == seq![Operator::Equal, Operator::NotEqual, Operator::GreaterEqual, Operator::SmallerEqual],
    {
        let mut v = Vec::new();
        v.push(Operator::Equal);
        v.push(Operator::NotEqual);
        v.push(Operator::GreaterEqual);
        v.push(Operator::SmallerEqual);
        assert(v@ =~= seq![Operator::Equal, Operator::NotEqual, Operator::GreaterEqual, Operator::SmallerEqual]);
        v
    }

    /// How the operator is written, as its `Display` form prints it.
    pub fn to_string(&self) -> (r: String)
        ensures
            r@ == spec_operator_text(*self),
    {
        String::from_str(operator_text(*self))
    }
}

// ----------------------------------------------------------------------------
// Mathematical views
// ----------------------------------------------------------------------------

/// A comparison of one signal with a constant.
pub struct ConstFormulaView {
    pub signal_name: Seq<char>,
    pub signal_idx: Option<u64>,
    pub operator: Operator,
    pub signal_length: u32,
    pub signal_types: Seq<SignalType>,
    pub value: i64,
}

/// A membership test of one signal in a set of constants.
pub struct SetFormulaView {
    pub signal_name: Seq<char>,
    pub signal_idx: Option<u64>,
    pub signal_length: u32,
    pub signal_types: Seq<SignalType>,
    pub values: Seq<i64>,
}

/// A comparison of two signals.
pub struct TwoSignalView {
    pub signal_name1: Seq<char>,
    pub signal_name2: Seq<char>,
    pub signal_idx1: Option<u64>,
    pub signal_idx2: Option<u64>,
    pub operation: Operator,
}

/// A predicate as a mathematical value.
pub enum FormulaView {
    SignalToConst(ConstFormulaView),
    ValueNotIn(SetFormulaView),
    ValueIn(SetFormulaView),
    TwoSignalEqual(TwoSignalView),
}

/// Two signal references designate the same signal: same name or same index.
pub open spec fn same_signal(n1: Seq<char>, i1: Option<u64>, n2: Seq<char>, i2: Option<u64>) -> bool {
    n1 == n2 || i1 == i2
}

pub open spec fn const_formula_eq(a: ConstFormulaView, b: ConstFormulaView) -> bool {
    same_signal(a.signal_name, a.signal_idx, b.signal_name, b.signal_idx)
        && a.operator == b.operator && a.signal_length == b.signal_length && a.value == b.value
}

pub open spec fn set_formula_eq(a: SetFormulaView, b: SetFormulaView) -> bool {
    same_signal(a.signal_name, a.signal_idx, b.signal_name, b.signal_idx)
        && a.signal_length == b.signal_length && a.values == b.values
}

/// Two-signal comparisons are equal when they compare the same pair of
/// signals, in either order, with the same operator.
pub open spec fn two_signal_eq(a: TwoSignalView, b: TwoSignalView) -> bool {
    ((same_signal(a.signal_name1, a.signal_idx1, b.signal_name1, b.signal_idx1)
        && same_signal(a.signal_name2, a.signal_idx2, b.signal_name2, b.signal_idx2))
    || (same_signal(a.signal_name1, a.signal_idx1, b.signal_name2, b.signal_idx2)
        && same_signal(a.signal_name2, a.signal_idx2, b.signal_name1, b.signal_idx1)))
    && a.operation == b.operation
}

/// Predicate equality: same kind, and equal formulas of that kind.
pub open spec fn pred_eq(a: FormulaView, b: FormulaView) -> bool {
    match (a, b) {
        (FormulaView::SignalToConst(x), FormulaView::SignalToConst(y)) => const_formula_eq(x, y),
        (FormulaView::ValueNotIn(x), FormulaView::ValueNotIn(y)) => set_formula_eq(x, y),
        (FormulaView::ValueIn(x), FormulaView::ValueIn(y)) => set_formula_eq(x, y),
        (FormulaView::TwoSignalEqual(x), FormulaView::TwoSignalEqual(y)) => two_signal_eq(x, y),
        _ => false,
    }
}

/// The operator a predicate applies: membership counts as `==`, exclusion as `!=`.
pub open spec fn spec_pred_operator(f: FormulaView) -> Operator {
    match f {
        FormulaView::SignalToConst(x) => x.operator,
        FormulaView::ValueNotIn(_) => Operator::NotEqual,
        FormulaView::ValueIn(_) => Operator::Equal,
        FormulaView::TwoSignalEqual(x) => x.operation,
    }
}

/// The names of the signals a predicate reads, in order.
pub open spec fn spec_pred_signal_names(f: FormulaView) -> Seq<Seq<char>> {
    match f {
        FormulaView::SignalToConst(x) => seq![x.signal_name],
        FormulaView::ValueNotIn(x) => seq![x.signal_name],
        FormulaView::ValueIn(x) => seq![x.signal_name],
        FormulaView::TwoSignalEqual(x) => seq![x.signal_name1, x.signal_name2],
    }
}

/// The indices, as a list, of a two-signal comparison: both, or none when one is missing.
pub open spec fn spec_two_signal_idx(x: TwoSignalView) -> Seq<u64> {
    match (x.signal_idx1, x.signal_idx2) {
        (Some(a), Some(b)) => seq![a, b],
        _ => Seq::empty(),
    }
}

pub open spec fn opt_to_set(o: Option<u64>) -> Set<u64> {
    match o {
        Some(i) => Set::empty().insert(i),
        None => Set::empty(),
    }
}

/// The indices of the signals a predicate reads, where they are known.
pub open spec fn spec_pred_signal_idx(f: FormulaView) -> Set<u64> {
    match f {
        FormulaView::SignalToConst(x) => opt_to_set(x.signal_idx),
        FormulaView::ValueNotIn(x) => opt_to_set(x.signal_idx),
        FormulaView::ValueIn(x) => opt_to_set(x.signal_idx),
        FormulaView::TwoSignalEqual(x) => spec_two_signal_idx(x).to_set(),
    }
}

/// The index set of a predicate as `Invariant::get_signal_idx` gathers it:
/// for a two-signal comparison, each known index counts on its own.
pub open spec fn spec_pred_known_idx(f: FormulaView) -> Set<u64> {
    match f {
        FormulaView::TwoSignalEqual(x) => opt_to_set(x.signal_idx1).union(opt_to_set(x.signal_idx2)),
        _ => spec_pred_signal_idx(f),
    }
}

/// The negation-like counterpart of a predicate: operators swap `==`/`!=` and
/// `>=`/`<=`, and membership swaps with exclusion.
pub open spec fn spec_pred_inverse(f: FormulaView) -> FormulaView {
    match f {
        FormulaView::SignalToConst(x) => FormulaView::SignalToConst(ConstFormulaView {
            operator: spec_inverse_operator(x.operator), ..x }),
        FormulaView::ValueNotIn(x) => FormulaView::ValueIn(x),
        FormulaView::ValueIn(x) => FormulaView::ValueNotIn(x),
        FormulaView::TwoSignalEqual(x) => FormulaView::TwoSignalEqual(TwoSignalView {
            operation: spec_inverse_operator(x.operation), ..x }),
    }
}

pub open spec fn is_two_signal(f: FormulaView) -> bool {
    f is TwoSignalEqual
}


// ----------------------------------------------------------------------------
// Executable formulas
// ----------------------------------------------------------------------------

fn opt_u64_eq(a: Option<u64>, b: Option<u64>) -> (r: bool)
    ensures
        r == (a == b),
{
    match (a, b) {
        (Some(x), Some(y)) => x == y,
        (None, None) => true,
        _ => false,
    }
}

fn same_signal_exec(n1: &String, i1: Option<u64>, n2: &String, i2: Option<u64>) -> (r: bool)
    ensures
        r == same_signal(n1@, i1, n2@, i2),
{
    *n1 == *n2 || opt_u64_eq(i1, i2)
}

fn values_eq(a: &Vec<i64>, b: &Vec<i64>) -> (r: bool)
    ensures
        r == (a@ == b@),
{
    if a.len() != b.len() {
        return false;
    }
    let n = a.len();
    for i in 0..n
        invariant
            n == a@.len(),
            n == b@.len(),
            forall|k: int| 0 <= k < i ==> a@[k] == b@[k],
    {
        if a[i] != b[i] {
            return false;
        }
    }
    assert(a@ =~= b@);
    true
}

fn copy_values(v: &Vec<i64>) -> (r: Vec<i64>)
    ensures
        r@ == v@,
{
    let mut r: Vec<i64> = Vec::new();
    let n = v.len();
    for i in 0..n
        invariant
            n == v@.len(),
            r@ == v@.take(i as int),
    {
        r.push(v[i]);
        assert(r@ =~= v@.take(i + 1));
    }
    assert(r@ =~= v@);
    r
}

/// `signal op value`.
#[derive(Clone, Debug)]
pub struct BaseSignalToConstFormula {
    pub signal_name: String,
    pub signal_idx: Option<u64>,
    pub operator: Operator,
    pub signal_length: u32,
    pub signal_types: SignalTypesSet,
    pub value: i64,
}

impl View for BaseSignalToConstFormula {
    type V = ConstFormulaView;

    open spec fn view(&self) -> ConstFormulaView {
        ConstFormulaView {
            signal_name: self.signal_name@,
            signal_idx: self.signal_idx,
            operator: self.operator,
            signal_length: self.signal_length,
            signal_types: self.signal_types.types@,
            value: self.value,
        }
    }
}

impl BaseSignalToConstFormula {
    /// The formula as `name op value`, as the `Display` form prints it.
    pub fn to_string(&self) -> (r: String)
        ensures
            r@ == spec_pred_text(FormulaView::SignalToConst(self@)),
    {
        let mut s = self.signal_name.clone();
        s.append(" ");
        s.append(operator_text(self.operator));
        s.append(" ");
        let d = i64_to_decimal(self.value);
        s.append(&d);
        s
    }

    pub fn get_value(&self) -> (r: i64)
        ensures
            r == self.value,
    {
        self.value
    }

    /// A field-by-field copy.
    pub fn duplicate(&self) -> (r: Self)
        ensures
            r@ == self@,
    {
        BaseSignalToConstFormula {
            signal_name: self.signal_name.clone(),
            signal_idx: self.signal_idx,
            operator: self.operator,
            signal_length: self.signal_length,
            signal_types: self.signal_types.copy_set(),
            value: self.value,
        }
    }

    pub fn get_inverse(&self) -> (r: Self)
        ensures
            r@ == (ConstFormulaView { operator: spec_inverse_operator(self.operator), ..self@ }),
    {
        let mut f = self.duplicate();
        f.operator = inverse_operator(self.operator);
        f
    }
}

/// `Hash::hash` of `u64` (std): feeds the integer to the hasher. Nothing is
/// claimed of what it does to the hasher's state.
pub assume_specification<H: std::hash::Hasher>[<u64 as std::hash::Hash>::hash::<H>](data: &u64, state: &mut H);

/// The number standing for an operator in hashes.
fn operator_code(op: Operator) -> (r: u64)
    ensures
        r == match op {
            Operator::Equal => 0u64,
            Operator::NotEqual => 1u64,
            Operator::GreaterEqual => 2u64,
            Operator::SmallerEqual => 3u64,
        },
{
    match op {
        Operator::Equal => 0,
        Operator::NotEqual => 1,
        Operator::GreaterEqual => 2,
        Operator::SmallerEqual => 3,
    }
}

impl std::hash::Hash for BaseSignalToConstFormula {
    /// Hashes the operator and the signal length, which `==` compares.
    fn hash<H: std::hash::Hasher>(&self, state: &mut H) {
        let op = operator_code(self.operator);
        op.hash(state);
        let len = self.signal_length as u64;
        len.hash(state);
    }
}

impl PartialEq for BaseSignalToConstFormula {
    fn eq(&self, other: &Self) -> (r: bool) {
        same_signal_exec(&self.signal_name, self.signal_idx, &other.signal_name, other.signal_idx)
            && self.operator == other.operator && self.signal_length == other.signal_length
            && self.value == other.value
    }
}

impl PartialEqSpecImpl for BaseSignalToConstFormula {
    open spec fn obeys_eq_spec() -> bool {
        true
    }

    open spec fn eq_spec(&self, other: &Self) -> bool {
        const_formula_eq(self@, other@)
    }
}

impl Eq for BaseSignalToConstFormula {}

/// `signal in {values}` or `signal not in {values}`.
#[derive(Clone, Debug)]
pub struct BaseSignalToConstSetFormula {
    pub signal_name: String,
    pub signal_idx: Option<u64>,
    pub signal_length: u32,
    pub signal_types: SignalTypesSet,
    pub values: Vec<i64>,
}

impl View for BaseSignalToConstSetFormula {
    type V = SetFormulaView;

    open spec fn view(&self) -> SetFormulaView {
        SetFormulaView {
            signal_name: self.signal_name@,
            signal_idx: self.signal_idx,
            signal_length: self.signal_length,
            signal_types: self.signal_types.types@,
            values: self.values@,
        }
    }
}

impl BaseSignalToConstSetFormula {
    pub fn get_values(&self) -> (r: &[i64])
        ensures
            r@ == self.values@,
    {
        self.values.as_slice()
    }

    /// A field-by-field copy.
    pub fn duplicate(&self) -> (r: Self)
        ensures
            r@ == self@,
    {
        BaseSignalToConstSetFormula {
            signal_name: self.signal_name.clone(),
            signal_idx: self.signal_idx,
            signal_length: self.signal_length,
            signal_types: self.signal_types.copy_set(),
            values: copy_values(&self.values),
        }
    }
}

impl std::hash::Hash for BaseSignalToConstSetFormula {
    /// Hashes the signal length, which `==` compares.
    fn hash<H: std::hash::Hasher>(&self, state: &mut H) {
        let len = self.signal_length as u64;
        len.hash(state);
    }
}

impl PartialEq for BaseSignalToConstSetFormula {
    fn eq(&self, other: &Self) -> (r: bool) {
        same_signal_exec(&self.signal_name, self.signal_idx, &other.signal_name, other.signal_idx)
            && self.signal_length == other.signal_length
            && values_eq(&self.values, &other.values)
    }
}

impl PartialEqSpecImpl for BaseSignalToConstSetFormula {
    open spec fn obeys_eq_spec() -> bool {
        true
    }

    open spec fn eq_spec(&self, other: &Self) -> bool {
        set_formula_eq(self@, other@)
    }
}

impl Eq for BaseSignalToConstSetFormula {}

/// `signal1 op signal2`.
#[derive(Clone, Debug)]
pub struct BaseFormulaTwoSignalCompare {
    pub signal_name1: String,
    pub signal_name2: String,
    pub signal_idx1: Option<u64>,
    pub signal_idx2: Option<u64>,
    pub operation: Operator,
}

impl View for BaseFormulaTwoSignalCompare {
    type V = TwoSignalView;

    open spec fn view(&self) -> TwoSignalView {
        TwoSignalView {
            signal_name1: self.signal_name1@,
            signal_name2: self.signal_name2@,
            signal_idx1: self.signal_idx1,
            signal_idx2: self.signal_idx2,
            operation: self.operation,
        }
    }
}

impl BaseFormulaTwoSignalCompare {
    /// The comparison as `name1 op name2`, as the `Display` form prints it.
    pub fn to_string(&self) -> (r: String)
        ensures
            r@ == spec_pred_text(FormulaView::TwoSignalEqual(self@)),
    {
        let mut s = self.signal_name1.clone();
        s.append(" ");
        s.append(operator_text(self.operation));
        s.append(" ");
        s.append(self.signal_name2.as_str());
        s
    }

    /// A field-by-field copy.
    pub fn duplicate(&self) -> (r: Self)
        ensures
            r@ == self@,
    {
        BaseFormulaTwoSignalCompare {
            signal_name1: self.signal_name1.clone(),
            signal_name2: self.signal_name2.clone(),
            signal_idx1: self.signal_idx1,
            signal_idx2: self.signal_idx2,
            operation: self.operation,
        }
    }

    pub fn get_inverse(&self) -> (r: Self)
        ensures
            r@ == (TwoSignalView { operation: spec_inverse_operator(self.operation), ..self@ }),
    {
        let mut f = self.duplicate();
        f.operation = inverse_operator(self.operation);
        f
    }

    pub fn get_signal_names(&self) -> (r: Vec<String>)
        ensures
            r@.map_values(|s: String| s@) == seq![self.signal_name1@, self.signal_name2@],
    {
        let mut v = Vec::new();
        v.push(self.signal_name1.clone());
        v.push(self.signal_name2.clone());
        assert(v@.map_values(|s: String| s@) =~= seq![self.signal_name1@, self.signal_name2@]);
        v
    }

    pub fn get_signal_idx(&self) -> (r: Vec<u64>)
        ensures
            r@ == spec_two_signal_idx(self@),
    {
        match (self.signal_idx1, self.signal_idx2) {
            (Some(a), Some(b)) => {
                let mut v = Vec::new();
                v.push(a);
                v.push(b);
                assert(v@ =~= seq![a, b]);
                v
            },
            _ => {
                let v = Vec::new();
                assert(v@ =~= Seq::<u64>::empty());
                v
            },
        }
    }
}

impl std::hash::Hash for BaseFormulaTwoSignalCompare {
    /// Hashes the operation, which `==` compares.
    fn hash<H: std::hash::Hasher>(&self, state: &mut H) {
        let op = operator_code(self.operation);
        op.hash(state);
    }
}

impl PartialEq for BaseFormulaTwoSignalCompare {
    fn eq(&self, other: &Self) -> (r: bool) {
        let straight = same_signal_exec(&self.signal_name1, self.signal_idx1, &other.signal_name1, other.signal_idx1)
            && same_signal_exec(&self.signal_name2, self.signal_idx2, &other.signal_name2, other.signal_idx2);
        let crossed = same_signal_exec(&self.signal_name1, self.signal_idx1, &other.signal_name2, other.signal_idx2)
            && same_signal_exec(&self.signal_name2, self.signal_idx2, &other.signal_name1, other.signal_idx1);
        (straight || crossed) && self.operation == other.operation
    }
}

impl PartialEqSpecImpl for BaseFormulaTwoSignalCompare {
    open spec fn obeys_eq_spec() -> bool {
        true
    }

    open spec fn eq_spec(&self, other: &Self) -> bool {
        two_signal_eq(self@, other@)
    }
}

impl Eq for BaseFormulaTwoSignalCompare {}

/// The formula of a predicate.
#[derive(Clone, Debug)]
pub enum BaseFormula {
    SignalToConst(BaseSignalToConstFormula),
    ValueNotIn(BaseSignalToConstSetFormula),
    ValueIn(BaseSignalToConstSetFormula),
    TwoSignalEqual(BaseFormulaTwoSignalCompare),
}

impl View for BaseFormula {
    type V = FormulaView;

    open spec fn view(&self) -> FormulaView {
        match self {
            BaseFormula::SignalToConst(f) => FormulaView::SignalToConst(f@),
            BaseFormula::ValueNotIn(f) => FormulaView::ValueNotIn(f@),
            BaseFormula::ValueIn(f) => FormulaView::ValueIn(f@),
            BaseFormula::TwoSignalEqual(f) => FormulaView::TwoSignalEqual(f@),
        }
    }
}

impl BaseFormula {
    /// A copy of the formula.
    pub fn duplicate(&self) -> (r: Self)
        ensures
            r@ == self@,
    {
        match self {
            BaseFormula::SignalToConst(f) => BaseFormula::SignalToConst(f.duplicate()),
            BaseFormula::ValueNotIn(f) => BaseFormula::ValueNotIn(f.duplicate()),
            BaseFormula::ValueIn(f) => BaseFormula::ValueIn(f.duplicate()),
            BaseFormula::TwoSignalEqual(f) => BaseFormula::TwoSignalEqual(f.duplicate()),
        }
    }

    pub fn get_signal_names(&self) -> (r: Vec<String>)
        ensures
            r@.map_values(|s: String| s@) == spec_pred_signal_names(self@),
    {
        let mut v = Vec::new();
        match self {
            BaseFormula::SignalToConst(f) => { v.push(f.signal_name.clone()); },
            BaseFormula::ValueNotIn(f) => { v.push(f.signal_name.clone()); },
            BaseFormula::ValueIn(f) => { v.push(f.signal_name.clone()); },
            BaseFormula::TwoSignalEqual(f) => {
                v.push(f.signal_name1.clone());
                v.push(f.signal_name2.clone());
            },
        }
        assert(v@.map_values(|s: String| s@) =~= spec_pred_signal_names(self@));
        v
    }

    pub fn get_inverse(&self) -> (r: Self)
        ensures
            r@ == spec_pred_inverse(self@),
    {
        match self {
            BaseFormula::SignalToConst(f) => BaseFormula::SignalToConst(f.get_inverse()),
            BaseFormula::ValueNotIn(f) => BaseFormula::ValueIn(f.duplicate()),
            BaseFormula::ValueIn(f) => BaseFormula::ValueNotIn(f.duplicate()),
            BaseFormula::TwoSignalEqual(f) => BaseFormula::TwoSignalEqual(f.get_inverse()),
        }
    }

    /// The rank by which formula kinds are ordered: constants, exclusions,
    /// memberships, then two-signal comparisons.
    pub fn kind_rank(&self) -> (r: u8)
        ensures
            r == spec_kind_rank(self@),
    {
        match self {
            BaseFormula::SignalToConst(_) => 0,
            BaseFormula::ValueNotIn(_) => 1,
            BaseFormula::ValueIn(_) => 2,
            BaseFormula::TwoSignalEqual(_) => 3,
        }
    }
}

pub open spec fn spec_kind_rank(f: FormulaView) -> u8 {
    match f {
        FormulaView::SignalToConst(_) => 0,
        FormulaView::ValueNotIn(_) => 1,
        FormulaView::ValueIn(_) => 2,
        FormulaView::TwoSignalEqual(_) => 3,
    }
}

pub fn base_formula_eq(a: &BaseFormula, b: &BaseFormula) -> (r: bool)
    ensures
        r == pred_eq(a@, b@),
{
    match (a, b) {
        (BaseFormula::SignalToConst(x), BaseFormula::SignalToConst(y)) => x == y,
        (BaseFormula::ValueNotIn(x), BaseFormula::ValueNotIn(y)) => x == y,
        (BaseFormula::ValueIn(x), BaseFormula::ValueIn(y)) => x == y,
        (BaseFormula::TwoSignalEqual(x), BaseFormula::TwoSignalEqual(y)) => x == y,
        _ => false,
    }
}

impl std::hash::Hash for BaseFormula {
    /// Hashes the kind of formula and the formula.
    fn hash<H: std::hash::Hasher>(&self, state: &mut H) {
        match self {
            BaseFormula::SignalToConst(f) => {
                let kind: u64 = 0;
                kind.hash(state);
                f.hash(state);
            },
            BaseFormula::ValueNotIn(f) => {
                let kind: u64 = 1;
                kind.hash(state);
                f.hash(state);
            },
            BaseFormula::ValueIn(f) => {
                let kind: u64 = 2;
                kind.hash(state);
                f.hash(state);
            },
            BaseFormula::TwoSignalEqual(f) => {
                let kind: u64 = 3;
                kind.hash(state);
                f.hash(state);
            },
        }
    }
}

impl PartialEq for BaseFormula {
    fn eq(&self, other: &Self) -> (r: bool) {
        base_formula_eq(self, other)
    }
}

impl PartialEqSpecImpl for BaseFormula {
    open spec fn obeys_eq_spec() -> bool {
        true
    }

    open spec fn eq_spec(&self, other: &Self) -> bool {
        pred_eq(self@, other@)
    }
}

impl Eq for BaseFormula {}


// ----------------------------------------------------------------------------
// Text forms
// ----------------------------------------------------------------------------

/// The text of a predicate, as `BasePredicate::to_string` prints it.
pub open spec fn spec_pred_text(f: FormulaView) -> Seq<char> {
    match f {
        FormulaView::SignalToConst(x) => x.signal_name + " "@ + spec_operator_text(x.operator) + " "@
            + int_decimal(x.value as int),
        FormulaView::ValueNotIn(x) => x.signal_name + " not in {"@
            + spec_join(decimal_parts(x.values), ", "@) + "}"@,
        FormulaView::ValueIn(x) => x.signal_name + " in {"@
            + spec_join(decimal_parts(x.values), ", "@) + "}"@,
        FormulaView::TwoSignalEqual(x) => x.signal_name1 + " "@ + spec_operator_text(x.operation) + " "@
            + x.signal_name2,
    }
}

/// One comparison `name op value` per value.
pub open spec fn jg_value_parts(name: Seq<char>, op: Seq<char>, values: Seq<i64>) -> Seq<Seq<char>> {
    values.map_values(|v: i64| name + " "@ + op + " "@ + int_decimal(v as int))
}

/// The texts of a map of strings.
pub open spec fn texts_of(m: Map<u64, String>) -> Map<u64, Seq<char>> {
    m.map_values(|s: String| s@)
}

/// The mapping holds a name for every index the predicate needs, and those indices are known.
pub open spec fn jg_mapping_covers(f: FormulaView, mapping: Map<u64, Seq<char>>) -> bool {
    match f {
        FormulaView::SignalToConst(x) => x.signal_idx is Some && mapping.contains_key(x.signal_idx->0),
        FormulaView::ValueNotIn(x) => x.signal_idx is Some && mapping.contains_key(x.signal_idx->0),
        FormulaView::ValueIn(x) => x.signal_idx is Some && mapping.contains_key(x.signal_idx->0),
        FormulaView::TwoSignalEqual(x) => x.signal_idx1 is Some && mapping.contains_key(x.signal_idx1->0)
            && x.signal_idx2 is Some && mapping.contains_key(x.signal_idx2->0),
    }
}

/// The text of a predicate with signals renamed through `mapping`: a set
/// test is spelled out as a chain of comparisons.
pub open spec fn spec_pred_jg_text(f: FormulaView, mapping: Map<u64, Seq<char>>) -> Seq<char> {
    match f {
        FormulaView::SignalToConst(x) => mapping[x.signal_idx->0] + " "@ + spec_operator_text(x.operator)
            + " "@ + int_decimal(x.value as int),
        FormulaView::ValueNotIn(x) => if x.values.len() == 0 { "true"@ } else {
            spec_join(jg_value_parts(mapping[x.signal_idx->0], "!="@, x.values), " && "@)
        },
        FormulaView::ValueIn(x) => if x.values.len() == 0 { "false"@ } else {
            spec_join(jg_value_parts(mapping[x.signal_idx->0], "=="@, x.values), " || "@)
        },
        FormulaView::TwoSignalEqual(x) => mapping[x.signal_idx1->0] + " "@ + spec_operator_text(x.operation)
            + " "@ + mapping[x.signal_idx2->0],
    }
}

fn join_jg_comparisons(name: &String, op: &str, values: &Vec<i64>, sep: &str) -> (s: String)
    ensures
        s@ == spec_join(jg_value_parts(name@, op@, values@), sep@),
{
    let mut s = String::new();
    let n = values.len();
    let ghost parts = jg_value_parts(name@, op@, values@);
    for i in 0..n
        invariant
            n == values@.len(),
            parts == jg_value_parts(name@, op@, values@),
            s@ == spec_join(parts.take(i as int), sep@),
    {
        proof { lemma_join_step(parts, sep@, i as int); }
        if i > 0 {
            s.append(sep);
        }
        s.append(name);
        s.append(" ");
        s.append(op);
        s.append(" ");
        let d = i64_to_decimal(values[i]);
        s.append(&d);
        assert(parts[i as int] == name@ + " "@ + op@ + " "@ + int_decimal(values@[i as int] as int));
    }
    assert(parts.take(n as int) =~= parts);
    s
}

// ----------------------------------------------------------------------------
// Predicates
// ----------------------------------------------------------------------------

/// A predicate over the signals of one sampled state.
#[derive(Clone, Debug)]
pub struct BasePredicate {
    pub base_formula: BaseFormula,
}

impl View for BasePredicate {
    type V = FormulaView;

    open spec fn view(&self) -> FormulaView {
        self.base_formula@
    }
}

fn set_of_option(o: Option<u64>) -> (r: HashSet<u64>)
    ensures
        r@ == opt_to_set(o),
{
    let mut r: HashSet<u64> = HashSet::new();
    if let Some(i) = o {
        r.insert(i);
    }
    assert(r@ =~= opt_to_set(o));
    r
}

impl BasePredicate {
    /// A copy of the predicate.
    pub fn duplicate(&self) -> (r: Self)
        ensures
            r@ == self@,
    {
        BasePredicate { base_formula: self.base_formula.duplicate() }
    }

    pub fn get_operator(&self) -> (r: Operator)
        ensures
            r == spec_pred_operator(self@),
    {
        match &self.base_formula {
            BaseFormula::SignalToConst(f) => f.operator,
            BaseFormula::ValueNotIn(_) => Operator::NotEqual,
            BaseFormula::ValueIn(_) => Operator::Equal,
            BaseFormula::TwoSignalEqual(f) => f.operation,
        }
    }

    pub fn get_signal_names(&self) -> (r: Vec<String>)
        ensures
            r@.map_values(|s: String| s@) == spec_pred_signal_names(self@),
    {
        self.base_formula.get_signal_names()
    }

    pub fn get_signal_idx(&self) -> (r: HashSet<u64>)
        ensures
            r@ == spec_pred_signal_idx(self@),
    {
        match &self.base_formula {
            BaseFormula::SignalToConst(f) => set_of_option(f.signal_idx),
            BaseFormula::ValueNotIn(f) => set_of_option(f.signal_idx),
            BaseFormula::ValueIn(f) => set_of_option(f.signal_idx),
            BaseFormula::TwoSignalEqual(f) => {
                let mut r: HashSet<u64> = HashSet::new();
                match (f.signal_idx1, f.signal_idx2) {
                    (Some(a), Some(b)) => {
                        r.insert(a);
                        r.insert(b);
                        assert(seq![a, b].contains(a) && seq![a, b].contains(b));
                        assert(r@ =~= seq![a, b].to_set());
                    },
                    _ => {
                        assert(r@ =~= Seq::<u64>::empty().to_set());
                    },
                }
                r
            },
        }
    }

    pub fn new_from_info_and_value(signal_info: &SignalInfo, operator: Operator, value: i64) -> (r: Self)
        ensures
            r@ == FormulaView::SignalToConst(ConstFormulaView {
                signal_name: spec_signal_name(signal_info.aliases@, signal_info.id),
                signal_idx: Some(signal_info.id),
                operator: operator,
                signal_length: signal_info.length as u32,
                signal_types: signal_info.signal_types.types@,
                value: value,
            }),
    {
        BasePredicate {
            base_formula: BaseFormula::SignalToConst(BaseSignalToConstFormula {
                signal_name: signal_info.get_signal_name(),
                signal_idx: Some(signal_info.id),
                operator,
                signal_length: signal_info.length as u32,
                signal_types: signal_info.signal_types.copy_set(),
                value,
            }),
        }
    }

    pub fn new_from_value(
        signal_name: String,
        operator: Operator,
        signal_length: usize,
        value: i64,
        signal_idx: Option<u64>,
    ) -> (r: Self)
        ensures
            r@ == FormulaView::SignalToConst(ConstFormulaView {
                signal_name: signal_name@,
                signal_idx: signal_idx,
                operator: operator,
                signal_length: signal_length as u32,
                signal_types: Seq::empty(),
                value: value,
            }),
    {
        BasePredicate {
            base_formula: BaseFormula::SignalToConst(BaseSignalToConstFormula {
                signal_name,
                signal_idx,
                operator,
                signal_length: signal_length as u32,
                signal_types: SignalTypesSet::default(),
                value,
            }),
        }
    }

    pub fn new_from_value_set(
        signal_name: String,
        signal_length: usize,
        values: Vec<i64>,
        signal_idx: Option<u64>,
        not_in: bool,
    ) -> (r: Self)
        ensures
            ({
                let f = SetFormulaView {
                    signal_name: signal_name@,
                    signal_idx: signal_idx,
                    signal_length: signal_length as u32,
                    signal_types: Seq::empty(),
                    values: values@,
                };
                r@ == if not_in { FormulaView::ValueNotIn(f) } else { FormulaView::ValueIn(f) }
            }),
    {
        let base_formula = BaseSignalToConstSetFormula {
            signal_name,
            signal_idx,
            signal_length: signal_length as u32,
            signal_types: SignalTypesSet::default(),
            values,
        };
        BasePredicate {
            base_formula: if not_in {
                BaseFormula::ValueNotIn(base_formula)
            } else {
                BaseFormula::ValueIn(base_formula)
            },
        }
    }

    pub fn new_from_two_signals(
        signal_name1: String,
        signal_name2: String,
        signal_idx: Option<u64>,
        signal_idx2: Option<u64>,
        operation: Operator,
    ) -> (r: Self)
        ensures
            r@ == FormulaView::TwoSignalEqual(TwoSignalView {
                signal_name1: signal_name1@,
                signal_name2: signal_name2@,
                signal_idx1: signal_idx,
                signal_idx2: signal_idx2,
                operation: operation,
            }),
    {
        BasePredicate {
            base_formula: BaseFormula::TwoSignalEqual(BaseFormulaTwoSignalCompare {
                signal_name1,
                signal_name2,
                signal_idx1: signal_idx,
                signal_idx2,
                operation,
            }),
        }
    }

    pub fn get_inverse(&self) -> (r: Self)
        ensures
            r@ == spec_pred_inverse(self@),
    {
        BasePredicate { base_formula: self.base_formula.get_inverse() }
    }

    pub fn to_string(&self) -> (r: String)
        ensures
            r@ == spec_pred_text(self@),
    {
        match &self.base_formula {
            BaseFormula::SignalToConst(f) => {
                let mut s = f.signal_name.clone();
                s.append(" ");
                s.append(operator_text(f.operator));
                s.append(" ");
                let d = i64_to_decimal(f.value);
                s.append(&d);
                s
            },
            BaseFormula::ValueNotIn(f) => {
                let mut s = f.signal_name.clone();
                s.append(" not in {");
                let j = join_decimals(&f.values, ", ");
                s.append(&j);
                s.append("}");
                s
            },
            BaseFormula::ValueIn(f) => {
                let mut s = f.signal_name.clone();
                s.append(" in {");
                let j = join_decimals(&f.values, ", ");
                s.append(&j);
                s.append("}");
                s
            },
            BaseFormula::TwoSignalEqual(f) => {
                let mut s = f.signal_name1.clone();
                s.append(" ");
                s.append(operator_text(f.operation));
                s.append(" ");
                s.append(&f.signal_name2);
                s
            },
        }
    }

    pub fn to_jg_string_with_signal_mapping(&self, signal_mapping: &HashMap<u64, String>) -> (r: String)
        requires
            jg_mapping_covers(self@, texts_of(signal_mapping@)),
        ensures
            r@ == spec_pred_jg_text(self@, texts_of(signal_mapping@)),
    {
        match &self.base_formula {
            BaseFormula::SignalToConst(f) => {
                let idx = f.signal_idx.unwrap();
                let name = signal_mapping.get(&idx).unwrap();
                let mut s = name.clone();
                s.append(" ");
                s.append(operator_text(f.operator));
                s.append(" ");
                let d = i64_to_decimal(f.value);
                s.append(&d);
                s
            },
            BaseFormula::ValueNotIn(f) => {
                let idx = f.signal_idx.unwrap();
                let name = signal_mapping.get(&idx).unwrap();
                if f.values.len() == 0 {
                    return String::from_str("true");
                }
                join_jg_comparisons(name, "!=", &f.values, " && ")
            },
            BaseFormula::ValueIn(f) => {
                let idx = f.signal_idx.unwrap();
                let name = signal_mapping.get(&idx).unwrap();
                if f.values.len() == 0 {
                    return String::from_str("false");
                }
                join_jg_comparisons(name, "==", &f.values, " || ")
            },
            BaseFormula::TwoSignalEqual(f) => {
                let name1 = signal_mapping.get(&f.signal_idx1.unwrap()).unwrap();
                let name2 = signal_mapping.get(&f.signal_idx2.unwrap()).unwrap();
                let mut s = name1.clone();
                s.append(" ");
                s.append(operator_text(f.operation));
                s.append(" ");
                s.append(name2);
                s
            },
        }
    }

    pub fn is_two_signal_equal(&self) -> (r: bool)
        ensures
            r == is_two_signal(self@),
    {
        match &self.base_formula {
            BaseFormula::TwoSignalEqual(_) => true,
            _ => false,
        }
    }
}

impl std::hash::Hash for BasePredicate {
    /// Hashes the formula.
    fn hash<H: std::hash::Hasher>(&self, state: &mut H) {
        self.base_formula.hash(state);
    }
}

impl PartialEq for BasePredicate {
    fn eq(&self, other: &Self) -> (r: bool) {
        base_formula_eq(&self.base_formula, &other.base_formula)
    }
}

impl PartialEqSpecImpl for BasePredicate {
    open spec fn obeys_eq_spec() -> bool {
        true
    }

    open spec fn eq_spec(&self, other: &Self) -> bool {
        pred_eq(self@, other@)
    }
}

impl Eq for BasePredicate {}


/// A predicate proposed to the search, possibly restricted to some cycles.
#[derive(Clone, Debug)]
pub struct BasePredicateCandidate {
    pub base_predicate: BasePredicate,
    pub only_in_cycles: Option<Vec<usize>>,
}

fn cycles_eq(a: &Option<Vec<usize>>, b: &Option<Vec<usize>>) -> (r: bool)
    ensures
        r == (opt_cycles_view(a) == opt_cycles_view(b)),
{
    match (a, b) {
        (Some(x), Some(y)) => {
            if x.len() != y.len() {
                return false;
            }
            let n = x.len();
            for i in 0..n
                invariant
                    n == x@.len(),
                    n == y@.len(),
                    opt_cycles_view(a) == Some(x@),
                    opt_cycles_view(b) == Some(y@),
                    forall|k: int| 0 <= k < i ==> x@[k] == y@[k],
            {
                if x[i] != y[i] {
                    assert(x@[i as int] != y@[i as int]);
                    return false;
                }
            }
            assert(x@ =~= y@);
            true
        },
        (None, None) => true,
        _ => false,
    }
}

pub open spec fn opt_cycles_view(o: &Option<Vec<usize>>) -> Option<Seq<usize>> {
    match o {
        Some(v) => Some(v@),
        None => None,
    }
}

impl BasePredicateCandidate {
    pub fn get_operator(&self) -> (r: Operator)
        ensures
            r == spec_pred_operator(self.base_predicate@),
    {
        self.base_predicate.get_operator()
    }

    pub fn get_signal_names(&self) -> (r: Vec<String>)
        ensures
            r@.map_values(|s: String| s@) == spec_pred_signal_names(self.base_predicate@),
    {
        self.base_predicate.get_signal_names()
    }

    pub fn get_signal_idx(&self) -> (r: HashSet<u64>)
        ensures
            r@ == spec_pred_signal_idx(self.base_predicate@),
    {
        self.base_predicate.get_signal_idx()
    }

    pub fn to_invariant(&self) -> (r: Invariant)
        ensures
            r@ == seq![self.base_predicate@],
    {
        self.base_predicate.to_invariant()
    }
}

impl std::hash::Hash for BasePredicateCandidate {
    /// Hashes the predicate and the cycles it is restricted to.
    fn hash<H: std::hash::Hasher>(&self, state: &mut H) {
        self.base_predicate.hash(state);
        match &self.only_in_cycles {
            None => {
                let tag: u64 = 0;
                tag.hash(state);
            },
            Some(cycles) => {
                let tag: u64 = 1;
                tag.hash(state);
                let n = cycles.len();
                for i in 0..n
                    invariant
                        n == cycles@.len(),
                {
                    let c = cycles[i] as u64;
                    c.hash(state);
                }
            },
        }
    }
}

impl PartialEq for BasePredicateCandidate {
    fn eq(&self, other: &Self) -> (r: bool) {
        self.base_predicate == other.base_predicate && cycles_eq(&self.only_in_cycles, &other.only_in_cycles)
    }
}

impl PartialEqSpecImpl for BasePredicateCandidate {
    open spec fn obeys_eq_spec() -> bool {
        true
    }

    open spec fn eq_spec(&self, other: &Self) -> bool {
        pred_eq(self.base_predicate@, other.base_predicate@)
            && opt_cycles_view(&self.only_in_cycles) == opt_cycles_view(&other.only_in_cycles)
    }
}

impl Eq for BasePredicateCandidate {}

/// Values that stand for a predicate.
pub trait PredicateLike: Sized {
    /// The predicate this value stands for.
    spec fn predicate_view(&self) -> FormulaView;

    fn to_base_predicate(&self) -> (r: BasePredicate)
        ensures
            r@ == self.predicate_view();

    fn to_candidate(&self) -> (r: BasePredicateCandidate)
        ensures
            r.base_predicate@ == self.predicate_view();

    fn is_two_signal_equal(&self) -> (r: bool)
        ensures
            r == is_two_signal(self.predicate_view());

    fn to_invariant(&self) -> (r: Invariant)
        ensures
            r@ == seq![self.predicate_view()];
}

impl PredicateLike for BasePredicate {
    open spec fn predicate_view(&self) -> FormulaView {
        self@
    }

    fn to_base_predicate(&self) -> (r: BasePredicate) {
        self.duplicate()
    }

    /// A candidate without cycle restriction.
    fn to_candidate(&self) -> (r: BasePredicateCandidate)
        ensures
            r.only_in_cycles is None,
    {
        BasePredicateCandidate { base_predicate: self.duplicate(), only_in_cycles: None }
    }

    fn is_two_signal_equal(&self) -> (r: bool) {
        match &self.base_formula {
            BaseFormula::TwoSignalEqual(_) => true,
            _ => false,
        }
    }

    fn to_invariant(&self) -> (r: Invariant) {
        let mut predicates = Vec::new();
        predicates.push(self.duplicate());
        let inv = Invariant { predicate_set: PredicateSet { predicates } };
        assert(inv@ =~= seq![self@]);
        inv
    }
}

impl PredicateLike for BasePredicateCandidate {
    open spec fn predicate_view(&self) -> FormulaView {
        self.base_predicate@
    }

    fn to_base_predicate(&self) -> (r: BasePredicate) {
        self.base_predicate.duplicate()
    }

    fn to_candidate(&self) -> (r: BasePredicateCandidate) {
        BasePredicateCandidate { base_predicate: self.base_predicate.duplicate(), only_in_cycles: self.only_in_cycles.clone() }
    }

    fn is_two_signal_equal(&self) -> (r: bool) {
        self.base_predicate.is_two_signal_equal()
    }

    fn to_invariant(&self) -> (r: Invariant) {
        self.base_predicate.to_invariant()
    }
}

// ----------------------------------------------------------------------------
// Conjunctions of predicates
// ----------------------------------------------------------------------------

pub open spec fn preds_view(v: Seq<BasePredicate>) -> Seq<FormulaView> {
    v.map_values(|p: BasePredicate| p@)
}

/// A list of predicates.
#[derive(Clone, Debug)]
pub struct PredicateSet {
    pub predicates: Vec<BasePredicate>,
}

impl PredicateSet {
    pub fn new() -> (r: Self)
        ensures
            r.predicates@ == Seq::<BasePredicate>::empty(),
    {
        PredicateSet { predicates: Vec::new() }
    }

    pub fn add_predicate(&mut self, predicate: BasePredicate)
        ensures
            final(self).predicates@ == old(self).predicates@.push(predicate),
    {
        self.predicates.push(predicate);
    }

    /// A copy of the list.
    pub fn duplicate(&self) -> (r: Self)
        ensures
            preds_view(r.predicates@) == preds_view(self.predicates@),
    {
        let mut v: Vec<BasePredicate> = Vec::new();
        let n = self.predicates.len();
        for i in 0..n
            invariant
                n == self.predicates@.len(),
                v@.len() == i,
                forall|k: int| 0 <= k < i ==> (#[trigger] v@[k])@ == self.predicates@[k]@,
        {
            v.push(self.predicates[i].duplicate());
        }
        assert(preds_view(v@) =~= preds_view(self.predicates@));
        PredicateSet { predicates: v }
    }
}

impl PartialEq for PredicateSet {
    fn eq(&self, other: &Self) -> (r: bool) {
        if self.predicates.len() != other.predicates.len() {
            return false;
        }
        let n = self.predicates.len();
        for i in 0..n
            invariant
                n == self.predicates@.len(),
                n == other.predicates@.len(),
                forall|k: int| 0 <= k < i ==> pred_eq(#[trigger] self.predicates@[k]@, other.predicates@[k]@),
        {
            if !(self.predicates[i] == other.predicates[i]) {
                return false;
            }
        }
        true
    }
}

impl PartialEqSpecImpl for PredicateSet {
    open spec fn obeys_eq_spec() -> bool {
        true
    }

    open spec fn eq_spec(&self, other: &Self) -> bool {
        self.predicates@.len() == other.predicates@.len()
            && forall|i: int| 0 <= i < self.predicates@.len()
                ==> pred_eq(#[trigger] self.predicates@[i]@, other.predicates@[i]@)
    }
}

/// A conjunction of predicates.
#[derive(Clone, Debug)]
pub struct Invariant {
    pub predicate_set: PredicateSet,
}

impl View for Invariant {
    type V = Seq<FormulaView>;

    open spec fn view(&self) -> Seq<FormulaView> {
        preds_view(self.predicate_set.predicates@)
    }
}

/// Some predicate of the list equals `p`.
pub open spec fn preds_contain(s: Seq<FormulaView>, p: FormulaView) -> bool {
    exists|i: int| 0 <= i < s.len() && pred_eq(#[trigger] s[i], p)
}

/// No two predicates at different positions are equal.
pub open spec fn no_equal_pair(s: Seq<FormulaView>) -> bool {
    forall|i: int, j: int| 0 <= i < j < s.len() ==> !pred_eq(#[trigger] s[i], #[trigger] s[j])
}

/// Non-two-signal predicates using `!=` in the list.
pub open spec fn count_not_equal(s: Seq<FormulaView>) -> nat
    decreases s.len(),
{
    if s.len() == 0 {
        0
    } else {
        count_not_equal(s.drop_last()) + if !is_two_signal(s.last()) && spec_pred_operator(s.last())
            == Operator::NotEqual { 1nat } else { 0nat }
    }
}

/// The predicate at position `i` rules out adding `other`: it equals it; or
/// it is a two-signal comparison on the same indices or the same names; or
/// `other` uses `!=` and the first `i + 1` predicates already hold `limit`
/// exclusion-style predicates.
pub open spec fn blocks_addition(preds: Seq<FormulaView>, other: FormulaView, limit: usize, i: int) -> bool {
    ||| pred_eq(preds[i], other)
    ||| is_two_signal(preds[i]) && (spec_pred_signal_idx(preds[i]) == spec_pred_signal_idx(other)
        || spec_pred_signal_names(preds[i]) == spec_pred_signal_names(other))
    ||| !is_two_signal(preds[i]) && spec_pred_operator(other) == Operator::NotEqual
        && count_not_equal(preds.take(i + 1)) >= limit
}

/// `other` may be added to the conjunction `preds`.
pub open spec fn spec_should_add(preds: Seq<FormulaView>, other: FormulaView, limit: usize) -> bool {
    forall|i: int| 0 <= i < preds.len() ==> !#[trigger] blocks_addition(preds, other, limit, i)
}

/// The limit on `!=` predicates the search starts with.
pub open spec fn default_not_equal_limit() -> usize {
    30
}

/// Union of the known indices of all predicates.
pub open spec fn preds_known_idx(s: Seq<FormulaView>) -> Set<u64>
    decreases s.len(),
{
    if s.len() == 0 {
        Set::empty()
    } else {
        preds_known_idx(s.drop_last()).union(spec_pred_known_idx(s.last()))
    }
}

/// The signal names of all predicates, in order, with repetitions.
pub open spec fn preds_names_flat(s: Seq<FormulaView>) -> Seq<Seq<char>>
    decreases s.len(),
{
    if s.len() == 0 {
        Seq::empty()
    } else {
        preds_names_flat(s.drop_last()) + spec_pred_signal_names(s.last())
    }
}

/// The indices of a predicate as a list without repetitions.
pub open spec fn spec_pred_idx_list(f: FormulaView) -> Seq<u64> {
    match f {
        FormulaView::TwoSignalEqual(x) => match (x.signal_idx1, x.signal_idx2) {
            (Some(a), Some(b)) => if a == b { seq![a] } else { seq![a, b] },
            _ => Seq::empty(),
        },
        FormulaView::SignalToConst(x) => match x.signal_idx { Some(i) => seq![i], None => Seq::empty() },
        FormulaView::ValueNotIn(x) => match x.signal_idx { Some(i) => seq![i], None => Seq::empty() },
        FormulaView::ValueIn(x) => match x.signal_idx { Some(i) => seq![i], None => Seq::empty() },
    }
}

/// The index lists of all predicates, concatenated.
pub open spec fn preds_idx_flat(s: Seq<FormulaView>) -> Seq<u64>
    decreases s.len(),
{
    if s.len() == 0 {
        Seq::empty()
    } else {
        preds_idx_flat(s.drop_last()) + spec_pred_idx_list(s.last())
    }
}

proof fn lemma_idx_list_set(f: FormulaView)
    ensures
        spec_pred_idx_list(f).to_set() == spec_pred_signal_idx(f),
        spec_pred_idx_list(f).no_duplicates(),
{
    let l = spec_pred_idx_list(f);
    if l.len() >= 1 {
        assert(l.contains(l[0]));
    }
    if l.len() == 2 {
        assert(l.contains(l[1]));
    }
    match f {
        FormulaView::TwoSignalEqual(x) => {
            assert(spec_pred_idx_list(f).to_set() =~= spec_pred_signal_idx(f)) by {
                match (x.signal_idx1, x.signal_idx2) {
                    (Some(a), Some(b)) => {
                        let t = seq![a, b];
                        assert(t[0] == a && t[1] == b);
                        assert(t.contains(a) && t.contains(b));
                    },
                    _ => {},
                }
            }
        },
        _ => {
            assert(spec_pred_idx_list(f).to_set() =~= spec_pred_signal_idx(f));
        },
    }
}

fn pred_idx_list(p: &BasePredicate) -> (r: Vec<u64>)
    ensures
        r@ == spec_pred_idx_list(p@),
{
    let mut v: Vec<u64> = Vec::new();
    match &p.base_formula {
        BaseFormula::TwoSignalEqual(f) => {
            match (f.signal_idx1, f.signal_idx2) {
                (Some(a), Some(b)) => {
                    v.push(a);
                    if a != b {
                        v.push(b);
                    }
                },
                _ => {},
            }
        },
        BaseFormula::SignalToConst(f) => { if let Some(i) = f.signal_idx { v.push(i); } },
        BaseFormula::ValueNotIn(f) => { if let Some(i) = f.signal_idx { v.push(i); } },
        BaseFormula::ValueIn(f) => { if let Some(i) = f.signal_idx { v.push(i); } },
    }
    assert(v@ =~= spec_pred_idx_list(p@));
    v
}

fn vec_u64_contains(v: &Vec<u64>, x: u64) -> (r: bool)
    ensures
        r == v@.contains(x),
{
    let n = v.len();
    for i in 0..n
        invariant
            n == v@.len(),
            forall|k: int| 0 <= k < i ==> v@[k] != x,
    {
        if v[i] == x {
            assert(v@[i as int] == x);
            return true;
        }
    }
    false
}

/// Every element of `a` is in `b`.
fn vec_u64_included(a: &Vec<u64>, b: &Vec<u64>) -> (r: bool)
    ensures
        r == a@.to_set().subset_of(b@.to_set()),
{
    let n = a.len();
    for i in 0..n
        invariant
            n == a@.len(),
            forall|k: int| 0 <= k < i ==> b@.contains(#[trigger] a@[k]),
    {
        if !vec_u64_contains(b, a[i]) {
            assert(a@.to_set().contains(a@[i as int]));
            return false;
        }
    }
    assert forall|x: u64| a@.to_set().contains(x) implies b@.to_set().contains(x) by {
        let k = choose|k: int| 0 <= k < a@.len() && a@[k] == x;
        assert(b@.contains(a@[k]));
    }
    true
}

fn same_idx_set(a: &BasePredicate, b: &BasePredicate) -> (r: bool)
    ensures
        r == (spec_pred_signal_idx(a@) == spec_pred_signal_idx(b@)),
{
    let va = pred_idx_list(a);
    let vb = pred_idx_list(b);
    proof {
        lemma_idx_list_set(a@);
        lemma_idx_list_set(b@);
    }
    let r = vec_u64_included(&va, &vb) && vec_u64_included(&vb, &va);
    proof {
        if r {
            assert(va@.to_set() =~= vb@.to_set());
        }
    }
    r
}

fn names_eq(a: &Vec<String>, b: &Vec<String>) -> (r: bool)
    ensures
        r == (a@.map_values(|s: String| s@) == b@.map_values(|s: String| s@)),
{
    if a.len() != b.len() {
        assert(a@.map_values(|s: String| s@).len() != b@.map_values(|s: String| s@).len());
        return false;
    }
    let n = a.len();
    for i in 0..n
        invariant
            n == a@.len(),
            n == b@.len(),
            forall|k: int| 0 <= k < i ==> a@[k]@ == b@[k]@,
    {
        if !(a[i] == b[i]) {
            assert(a@.map_values(|s: String| s@)[i as int] != b@.map_values(|s: String| s@)[i as int]);
            return false;
        }
    }
    assert(a@.map_values(|s: String| s@) =~= b@.map_values(|s: String| s@));
    true
}

pub open spec fn names_view(v: Seq<String>) -> Seq<Seq<char>> {
    v.map_values(|s: String| s@)
}

/// Adds `s` to `v` unless a string with the same text is already there.
pub(crate) fn push_unique_name(v: &mut Vec<String>, s: String)
    ensures
        names_view(final(v)@).to_set() == names_view(old(v)@).to_set().insert(s@),
        names_view(old(v)@).no_duplicates() ==> names_view(final(v)@).no_duplicates(),
{
    let n = v.len();
    for i in 0..n
        invariant
            n == v@.len(),
            v@ == old(v)@,
            forall|k: int| 0 <= k < i ==> v@[k]@ != s@,
    {
        if v[i] == s {
            assert(names_view(v@)[i as int] == s@);
            assert(names_view(v@).to_set() =~= names_view(old(v)@).to_set().insert(s@));
            return;
        }
    }
    let ghost before = v@;
    v.push(s);
    proof {
        assert(names_view(v@) =~= names_view(before).push(s@));
        assert(names_view(v@) =~= names_view(before) + seq![s@]);
        Seq::<Seq<char>>::lemma_to_set_insert_commutes(names_view(before), s@);
        assert(!names_view(before).contains(s@));
    }
}


proof fn lemma_count_not_equal_bound(s: Seq<FormulaView>)
    ensures
        count_not_equal(s) <= s.len(),
    decreases s.len(),
{
    if s.len() > 0 {
        lemma_count_not_equal_bound(s.drop_last());
    }
}

/// The text of a conjunction, as its `Display` form prints it.
pub open spec fn spec_invariant_text(s: Seq<FormulaView>) -> Seq<char> {
    spec_join(s.map_values(|p: FormulaView| spec_pred_text(p)), " && "@)
}

/// The text of a conjunction with signals renamed through `mapping`.
pub open spec fn spec_invariant_jg_text(s: Seq<FormulaView>, mapping: Map<u64, Seq<char>>) -> Seq<char> {
    spec_join(s.map_values(|p: FormulaView| spec_pred_jg_text(p, mapping)), " && "@)
}

pub open spec fn invariant_mapping_covers(s: Seq<FormulaView>, mapping: Map<u64, Seq<char>>) -> bool {
    forall|i: int| 0 <= i < s.len() ==> jg_mapping_covers(#[trigger] s[i], mapping)
}

impl Invariant {
    pub fn new() -> (r: Self)
        ensures
            r@ == Seq::<FormulaView>::empty(),
    {
        let r = Invariant { predicate_set: PredicateSet::new() };
        assert(r@ =~= Seq::<FormulaView>::empty());
        r
    }

    /// A copy of the conjunction.
    pub fn duplicate(&self) -> (r: Self)
        ensures
            r@ == self@,
    {
        Invariant { predicate_set: self.predicate_set.duplicate() }
    }

    /// The conjunction of both, `self`'s predicates first. Both together must
    /// not hold two equal predicates.
    pub fn merge_invariant(&self, other: &Invariant) -> (r: Self)
        requires
            no_equal_pair(self@ + other@),
        ensures
            r@ == self@ + other@,
    {
        let mut merged = self.duplicate();
        let n = other.predicate_set.predicates.len();
        for i in 0..n
            invariant
                n == other@.len(),
                merged@ == self@ + other@.take(i as int),
        {
            merged.add_predicate(other.predicate_set.predicates[i].duplicate());
            assert(merged@ =~= self@ + other@.take(i + 1));
        }
        assert(other@.take(n as int) =~= other@);
        merged
    }

    pub fn add_predicate(&mut self, predicate: BasePredicate)
        ensures
            final(self)@ == old(self)@.push(predicate@),
    {
        self.predicate_set.add_predicate(predicate);
        assert(self@ =~= old(self)@.push(predicate@));
    }

    pub fn contains_predicate(&self, other_predicate: &BasePredicate) -> (r: bool)
        ensures
            r == preds_contain(self@, other_predicate@),
    {
        let n = self.predicate_set.predicates.len();
        for i in 0..n
            invariant
                n == self@.len(),
                forall|k: int| 0 <= k < i ==> !pred_eq(#[trigger] self@[k], other_predicate@),
        {
            if self.predicate_set.predicates[i] == *other_predicate {
                assert(pred_eq(self@[i as int], other_predicate@));
                return true;
            }
        }
        false
    }

    /// Whether `other_predicate` may be added, with the limit on `!=`
    /// predicates taken from `limits`.
    pub fn should_add_predicate_with_limits(&self, other_predicate: &BasePredicate, limits: &PredicateTakeLimits) -> (r: bool)
        ensures
            r == spec_should_add(self@, other_predicate@, limits.not_equal_predicates),
    {
        let limit = limits.not_equal_predicates;
        let n = self.predicate_set.predicates.len();
        let mut counter: usize = 0;
        let other_names = other_predicate.get_signal_names();
        let other_operator = other_predicate.get_operator();
        for i in 0..n
            invariant
                n == self@.len(),
                limit == limits.not_equal_predicates,
                names_view(other_names@) == spec_pred_signal_names(other_predicate@),
                other_operator == spec_pred_operator(other_predicate@),
                counter == count_not_equal(self@.take(i as int)),
                forall|k: int| 0 <= k < i ==> !#[trigger] blocks_addition(self@, other_predicate@, limit, k),
        {
            let p = &self.predicate_set.predicates[i];
            proof {
                assert(self@.take(i + 1).drop_last() =~= self@.take(i as int));
                assert(self@.take(i + 1).last() == self@[i as int]);
                lemma_count_not_equal_bound(self@.take(i as int));
            }
            if *p == *other_predicate {
                assert(blocks_addition(self@, other_predicate@, limit, i as int));
                return false;
            }
            if p.is_two_signal_equal() {
                let p_names = p.get_signal_names();
                if same_idx_set(p, other_predicate) || names_eq(&p_names, &other_names) {
                    assert(blocks_addition(self@, other_predicate@, limit, i as int));
                    return false;
                }
            } else {
                if p.get_operator() == Operator::NotEqual {
                    counter = counter + 1;
                }
                if other_operator == Operator::NotEqual && counter >= limit {
                    assert(blocks_addition(self@, other_predicate@, limit, i as int));
                    return false;
                }
            }
            assert(!blocks_addition(self@, other_predicate@, limit, i as int));
        }
        true
    }

    /// Whether `other_predicate` may be added, under the starting limits of the search.
    pub fn should_add_predicate(&self, other_predicate: &BasePredicate) -> (r: bool)
        ensures
            r == spec_should_add(self@, other_predicate@, default_not_equal_limit()),
    {
        let limits = PredicateTakeLimits::default_limits();
        self.should_add_predicate_with_limits(other_predicate, &limits)
    }

    /// Every predicate of `other` may be added, with limits from `limits`.
    pub fn should_add_other_invariant_with_limits(&self, other: &Invariant, limits: &PredicateTakeLimits) -> (r: bool)
        ensures
            r == forall|j: int| 0 <= j < other@.len()
                ==> spec_should_add(self@, #[trigger] other@[j], limits.not_equal_predicates),
    {
        let n = other.predicate_set.predicates.len();
        for j in 0..n
            invariant
                n == other@.len(),
                forall|k: int| 0 <= k < j ==> spec_should_add(self@, #[trigger] other@[k], limits.not_equal_predicates),
        {
            if !self.should_add_predicate_with_limits(&other.predicate_set.predicates[j], limits) {
                assert(!spec_should_add(self@, other@[j as int], limits.not_equal_predicates));
                return false;
            }
        }
        true
    }

    /// Every predicate of `other` may be added, under the starting limits of the search.
    pub fn should_add_other_invariant(&self, other: &Invariant) -> (r: bool)
        ensures
            r == forall|j: int| 0 <= j < other@.len()
                ==> spec_should_add(self@, #[trigger] other@[j], default_not_equal_limit()),
    {
        let limits = PredicateTakeLimits::default_limits();
        self.should_add_other_invariant_with_limits(other, &limits)
    }

    /// The names of the signals the conjunction reads, each once.
    pub fn get_signal_names(&self) -> (r: Vec<String>)
        ensures
            names_view(r@).to_set() == preds_names_flat(self@).to_set(),
            names_view(r@).no_duplicates(),
    {
        let mut r: Vec<String> = Vec::new();
        let n = self.predicate_set.predicates.len();
        assert(names_view(r@).to_set() =~= preds_names_flat(self@.take(0)).to_set());
        for i in 0..n
            invariant
                n == self@.len(),
                names_view(r@).to_set() == preds_names_flat(self@.take(i as int)).to_set(),
                names_view(r@).no_duplicates(),
        {
            let names = self.predicate_set.predicates[i].get_signal_names();
            let ghost before = r@;
            let m = names.len();
            proof {
                assert(self@.take(i + 1).drop_last() =~= self@.take(i as int));
                assert(self@.take(i + 1).last() == self@[i as int]);
            }
            for j in 0..m
                invariant
                    m == names@.len(),
                    names_view(r@).to_set() == names_view(before).to_set().union(names_view(names@.take(j as int)).to_set()),
                    names_view(r@).no_duplicates(),
            {
                push_unique_name(&mut r, names[j].clone());
                proof {
                    assert(names_view(names@.take(j + 1)) =~= names_view(names@.take(j as int)).push(names@[j as int]@));
                    names_view(names@.take(j as int)).lemma_push_to_set_commute(names@[j as int]@);
                    assert(names_view(r@).to_set() =~= names_view(before).to_set().union(names_view(names@.take(j + 1)).to_set()));
                }
            }
            assert(names@.take(m as int) =~= names@);
            assert(preds_names_flat(self@.take(i + 1)) == preds_names_flat(self@.take(i as int)) + names_view(names@));
            proof {
                vstd::seq_lib::seq_to_set_distributes_over_add(preds_names_flat(self@.take(i as int)), names_view(names@));
            }
            assert(names_view(r@).to_set() =~= preds_names_flat(self@.take(i + 1)).to_set());
        }
        assert(self@.take(n as int) =~= self@);
        r
    }

    /// The indices of the signals the conjunction reads, where known.
    pub fn get_signal_idx(&self) -> (r: HashSet<u64>)
        ensures
            r@ == preds_known_idx(self@),
    {
        let mut r: HashSet<u64> = HashSet::new();
        let n = self.predicate_set.predicates.len();
        assert(r@ =~= preds_known_idx(self@.take(0)));
        for i in 0..n
            invariant
                n == self@.len(),
                r@ == preds_known_idx(self@.take(i as int)),
        {
            proof {
                assert(self@.take(i + 1).drop_last() =~= self@.take(i as int));
                assert(self@.take(i + 1).last() == self@[i as int]);
            }
            match &self.predicate_set.predicates[i].base_formula {
                BaseFormula::SignalToConst(f) => { if let Some(idx) = f.signal_idx { r.insert(idx); } },
                BaseFormula::ValueNotIn(f) => { if let Some(idx) = f.signal_idx { r.insert(idx); } },
                BaseFormula::ValueIn(f) => { if let Some(idx) = f.signal_idx { r.insert(idx); } },
                BaseFormula::TwoSignalEqual(f) => {
                    if let Some(idx1) = f.signal_idx1 { r.insert(idx1); }
                    if let Some(idx2) = f.signal_idx2 { r.insert(idx2); }
                },
            }
            assert(r@ =~= preds_known_idx(self@.take(i + 1)));
        }
        assert(self@.take(n as int) =~= self@);
        r
    }

    /// The signal names of all predicates in order, with repetitions.
    pub fn get_relevant_signals(&self) -> (r: Vec<String>)
        ensures
            names_view(r@) == preds_names_flat(self@),
    {
        let mut r: Vec<String> = Vec::new();
        let n = self.predicate_set.predicates.len();
        assert(names_view(r@) =~= preds_names_flat(self@.take(0)));
        for i in 0..n
            invariant
                n == self@.len(),
                names_view(r@) == preds_names_flat(self@.take(i as int)),
        {
            proof {
                assert(self@.take(i + 1).drop_last() =~= self@.take(i as int));
                assert(self@.take(i + 1).last() == self@[i as int]);
            }
            let names = self.predicate_set.predicates[i].get_signal_names();
            let ghost before = r@;
            let m = names.len();
            for j in 0..m
                invariant
                    m == names@.len(),
                    names_view(r@) == names_view(before) + names_view(names@.take(j as int)),
            {
                let ghost r_old = r@;
                let c = names[j].clone();
                r.push(c);
                assert(r@ == r_old.push(names@[j as int]));
                assert(names_view(r@) =~= names_view(r_old).push(names@[j as int]@));
                assert(names_view(names@.take(j + 1)) =~= names_view(names@.take(j as int)).push(names@[j as int]@));
                assert(names_view(r@) =~= names_view(before) + names_view(names@.take(j + 1)));
            }
            assert(names@.take(m as int) =~= names@);
            assert(names_view(r@) =~= preds_names_flat(self@.take(i + 1)));
        }
        assert(self@.take(n as int) =~= self@);
        r
    }

    /// The index lists of all predicates, concatenated.
    pub fn get_relevant_signal_idx(&self) -> (r: Vec<u64>)
        ensures
            r@ == preds_idx_flat(self@),
    {
        let mut r: Vec<u64> = Vec::new();
        let n = self.predicate_set.predicates.len();
        assert(r@ =~= preds_idx_flat(self@.take(0)));
        for i in 0..n
            invariant
                n == self@.len(),
                r@ == preds_idx_flat(self@.take(i as int)),
        {
            proof {
                assert(self@.take(i + 1).drop_last() =~= self@.take(i as int));
                assert(self@.take(i + 1).last() == self@[i as int]);
            }
            let idx = pred_idx_list(&self.predicate_set.predicates[i]);
            let ghost before = r@;
            let m = idx.len();
            for j in 0..m
                invariant
                    m == idx@.len(),
                    r@ == before + idx@.take(j as int),
            {
                r.push(idx[j]);
                assert(r@ =~= before + idx@.take(j + 1));
            }
            assert(idx@.take(m as int) =~= idx@);
            assert(r@ =~= preds_idx_flat(self@.take(i + 1)));
        }
        assert(self@.take(n as int) =~= self@);
        r
    }

    /// Every predicate of `self` is equal to some predicate of `other`.
    pub fn subset_of(&self, other: &Invariant) -> (r: bool)
        ensures
            r == forall|i: int| 0 <= i < self@.len() ==> preds_contain(other@, #[trigger] self@[i]),
    {
        let n = self.predicate_set.predicates.len();
        for i in 0..n
            invariant
                n == self@.len(),
                forall|k: int| 0 <= k < i ==> preds_contain(other@, #[trigger] self@[k]),
        {
            if !other.contains_predicate(&self.predicate_set.predicates[i]) {
                assert(!preds_contain(other@, self@[i as int]));
                return false;
            }
        }
        true
    }

    /// Every predicate of `other` is equal to some predicate of `self`.
    pub fn superset_of(&self, other: &Invariant) -> (r: bool)
        ensures
            r == forall|i: int| 0 <= i < other@.len() ==> preds_contain(self@, #[trigger] other@[i]),
    {
        other.subset_of(self)
    }

    pub fn num_predicates(&self) -> (r: usize)
        ensures
            r == self@.len(),
    {
        self.predicate_set.predicates.len()
    }

    /// The predicates joined by ` && `, as the `Display` form prints them.
    pub fn to_string(&self) -> (r: String)
        ensures
            r@ == spec_invariant_text(self@),
    {
        let mut s = String::new();
        let n = self.predicate_set.predicates.len();
        let ghost parts = self@.map_values(|p: FormulaView| spec_pred_text(p));
        for i in 0..n
            invariant
                n == self@.len(),
                parts == self@.map_values(|p: FormulaView| spec_pred_text(p)),
                s@ == spec_join(parts.take(i as int), " && "@),
        {
            proof { lemma_join_step(parts, " && "@, i as int); }
            if i > 0 {
                s.append(" && ");
            }
            let t = self.predicate_set.predicates[i].to_string();
            s.append(&t);
        }
        assert(parts.take(n as int) =~= parts);
        s
    }

    /// The predicates with signals renamed through `signal_mapping`, joined by ` && `.
    pub fn to_jg_string_with_signal_mapping(&self, signal_mapping: &HashMap<u64, String>) -> (r: String)
        requires
            invariant_mapping_covers(self@, texts_of(signal_mapping@)),
        ensures
            r@ == spec_invariant_jg_text(self@, texts_of(signal_mapping@)),
    {
        let mut s = String::new();
        let n = self.predicate_set.predicates.len();
        let ghost parts = self@.map_values(|p: FormulaView| spec_pred_jg_text(p, texts_of(signal_mapping@)));
        for i in 0..n
            invariant
                n == self@.len(),
                invariant_mapping_covers(self@, texts_of(signal_mapping@)),
                parts == self@.map_values(|p: FormulaView| spec_pred_jg_text(p, texts_of(signal_mapping@))),
                s@ == spec_join(parts.take(i as int), " && "@),
        {
            proof { lemma_join_step(parts, " && "@, i as int); }
            if i > 0 {
                s.append(" && ");
            }
            assert(jg_mapping_covers(self@[i as int], texts_of(signal_mapping@)));
            let t = self.predicate_set.predicates[i].to_jg_string_with_signal_mapping(signal_mapping);
            s.append(&t);
        }
        assert(parts.take(n as int) =~= parts);
        s
    }
}

/// Two conjunctions are equal when they have the same number of predicates
/// and each predicate of the first equals one of the second.
pub open spec fn spec_invariant_eq(a: Seq<FormulaView>, b: Seq<FormulaView>) -> bool {
    a.len() == b.len() && forall|i: int| 0 <= i < a.len() ==> preds_contain(b, #[trigger] a[i])
}

impl PartialEq for Invariant {
    fn eq(&self, other: &Self) -> (r: bool) {
        if self.predicate_set.predicates.len() != other.predicate_set.predicates.len() {
            return false;
        }
        self.subset_of(other)
    }
}

impl PartialEqSpecImpl for Invariant {
    open spec fn obeys_eq_spec() -> bool {
        true
    }

    open spec fn eq_spec(&self, other: &Self) -> bool {
        spec_invariant_eq(self@, other@)
    }
}

impl Eq for Invariant {}

impl Default for Invariant {
    fn default() -> (r: Self)
        ensures
            r@ == Seq::<FormulaView>::empty(),
    {
        Invariant::new()
    }
}


/// Adds each of `names` to `r` unless already present.
pub(crate) fn extend_unique_names(r: &mut Vec<String>, names: &Vec<String>)
    ensures
        names_view(final(r)@).to_set() == names_view(old(r)@).to_set().union(names_view(names@).to_set()),
        names_view(old(r)@).no_duplicates() ==> names_view(final(r)@).no_duplicates(),
{
    let m = names.len();
    let ghost before = r@;
    for j in 0..m
        invariant
            m == names@.len(),
            names_view(r@).to_set() == names_view(before).to_set().union(names_view(names@.take(j as int)).to_set()),
            names_view(before).no_duplicates() ==> names_view(r@).no_duplicates(),
    {
        push_unique_name(r, names[j].clone());
        proof {
            assert(names_view(names@.take(j + 1)) =~= names_view(names@.take(j as int)).push(names@[j as int]@));
            names_view(names@.take(j as int)).lemma_push_to_set_commute(names@[j as int]@);
            assert(names_view(r@).to_set() =~= names_view(before).to_set().union(names_view(names@.take(j + 1)).to_set()));
        }
    }
    assert(names@.take(m as int) =~= names@);
}

// ----------------------------------------------------------------------------
// Disjunctions and separator formulas
// ----------------------------------------------------------------------------

pub open spec fn invariants_view(v: Seq<Invariant>) -> Seq<Seq<FormulaView>> {
    v.map_values(|i: Invariant| i@)
}

/// A disjunction of conjunctions.
#[derive(Clone, Debug)]
pub struct InvariantDisjunction {
    pub disjunctions: Vec<Invariant>,
}

impl View for InvariantDisjunction {
    type V = Seq<Seq<FormulaView>>;

    open spec fn view(&self) -> Seq<Seq<FormulaView>> {
        invariants_view(self.disjunctions@)
    }
}

/// Union of the known indices of all conjunctions.
pub open spec fn disj_known_idx(s: Seq<Seq<FormulaView>>) -> Set<u64>
    decreases s.len(),
{
    if s.len() == 0 {
        Set::empty()
    } else {
        disj_known_idx(s.drop_last()).union(preds_known_idx(s.last()))
    }
}

/// The signal names of all conjunctions, in order, with repetitions.
pub open spec fn disj_names_flat(s: Seq<Seq<FormulaView>>) -> Seq<Seq<char>>
    decreases s.len(),
{
    if s.len() == 0 {
        Seq::empty()
    } else {
        disj_names_flat(s.drop_last()) + preds_names_flat(s.last())
    }
}

/// All predicates of all conjunctions, in order.
pub open spec fn disj_preds_flat(s: Seq<Seq<FormulaView>>) -> Seq<FormulaView>
    decreases s.len(),
{
    if s.len() == 0 {
        Seq::empty()
    } else {
        disj_preds_flat(s.drop_last()) + s.last()
    }
}

/// The text of a disjunction: each conjunction in parentheses, joined by ` || `.
pub open spec fn spec_disjunction_text(s: Seq<Seq<FormulaView>>) -> Seq<char> {
    spec_join(s.map_values(|inv: Seq<FormulaView>| "("@ + spec_invariant_text(inv) + ")"@), " || "@)
}

/// The text of a disjunction with signals renamed through `mapping`.
pub open spec fn spec_disjunction_jg_text(s: Seq<Seq<FormulaView>>, mapping: Map<u64, Seq<char>>) -> Seq<char> {
    spec_join(s.map_values(|inv: Seq<FormulaView>| "("@ + spec_invariant_jg_text(inv, mapping) + ")"@), " || "@)
}

pub open spec fn disjunction_mapping_covers(s: Seq<Seq<FormulaView>>, mapping: Map<u64, Seq<char>>) -> bool {
    forall|i: int| 0 <= i < s.len() ==> invariant_mapping_covers(#[trigger] s[i], mapping)
}

/// Adds the known indices of `p` to `r`.
fn insert_known_idx(r: &mut HashSet<u64>, p: &BasePredicate)
    ensures
        final(r)@ == old(r)@.union(spec_pred_known_idx(p@)),
{
    match &p.base_formula {
        BaseFormula::SignalToConst(f) => { if let Some(idx) = f.signal_idx { r.insert(idx); } },
        BaseFormula::ValueNotIn(f) => { if let Some(idx) = f.signal_idx { r.insert(idx); } },
        BaseFormula::ValueIn(f) => { if let Some(idx) = f.signal_idx { r.insert(idx); } },
        BaseFormula::TwoSignalEqual(f) => {
            if let Some(idx1) = f.signal_idx1 { r.insert(idx1); }
            if let Some(idx2) = f.signal_idx2 { r.insert(idx2); }
        },
    }
    assert(r@ =~= old(r)@.union(spec_pred_known_idx(p@)));
}

/// Adds the known indices of all predicates of `inv` to `r`.
fn insert_invariant_idx(r: &mut HashSet<u64>, inv: &Invariant)
    ensures
        final(r)@ == old(r)@.union(preds_known_idx(inv@)),
{
    let n = inv.predicate_set.predicates.len();
    let ghost before = r@;
    assert(r@ =~= before.union(preds_known_idx(inv@.take(0))));
    for i in 0..n
        invariant
            n == inv@.len(),
            r@ == before.union(preds_known_idx(inv@.take(i as int))),
    {
        proof {
            assert(inv@.take(i + 1).drop_last() =~= inv@.take(i as int));
            assert(inv@.take(i + 1).last() == inv@[i as int]);
        }
        insert_known_idx(r, &inv.predicate_set.predicates[i]);
        assert(r@ =~= before.union(preds_known_idx(inv@.take(i + 1))));
    }
    assert(inv@.take(n as int) =~= inv@);
}

fn disjunction_signal_idx(invs: &Vec<Invariant>) -> (r: HashSet<u64>)
    ensures
        r@ == disj_known_idx(invariants_view(invs@)),
{
    let mut r: HashSet<u64> = HashSet::new();
    let n = invs.len();
    let ghost v = invariants_view(invs@);
    assert(r@ =~= disj_known_idx(v.take(0)));
    for i in 0..n
        invariant
            n == invs@.len(),
            v == invariants_view(invs@),
            r@ == disj_known_idx(v.take(i as int)),
    {
        proof {
            assert(v.take(i + 1).drop_last() =~= v.take(i as int));
            assert(v.take(i + 1).last() == v[i as int]);
        }
        insert_invariant_idx(&mut r, &invs[i]);
        assert(r@ =~= disj_known_idx(v.take(i + 1)));
    }
    assert(v.take(n as int) =~= v);
    r
}

impl InvariantDisjunction {
    pub fn new() -> (r: Self)
        ensures
            r@ == Seq::<Seq<FormulaView>>::empty(),
    {
        let r = InvariantDisjunction { disjunctions: Vec::new() };
        assert(r@ =~= Seq::<Seq<FormulaView>>::empty());
        r
    }

    pub fn add_invariant(&mut self, inv: Invariant)
        ensures
            final(self)@ == old(self)@.push(inv@),
    {
        self.disjunctions.push(inv);
        assert(self@ =~= old(self)@.push(inv@));
    }

    pub fn get_relevant_signal_idx(&self) -> (r: HashSet<u64>)
        ensures
            r@ == disj_known_idx(self@),
    {
        disjunction_signal_idx(&self.disjunctions)
    }

    /// The names of the signals the disjunction reads, each once.
    pub fn get_relevant_signals(&self) -> (r: Vec<String>)
        ensures
            names_view(r@).to_set() == disj_names_flat(self@).to_set(),
            names_view(r@).no_duplicates(),
    {
        disjunction_signal_names(&self.disjunctions)
    }

    /// Each conjunction in parentheses with signals renamed, joined by ` || `.
    pub fn to_jg_string_with_signal_mapping(&self, signal_mapping: &HashMap<u64, String>) -> (r: String)
        requires
            disjunction_mapping_covers(self@, texts_of(signal_mapping@)),
        ensures
            r@ == spec_disjunction_jg_text(self@, texts_of(signal_mapping@)),
    {
        let mut s = String::new();
        let n = self.disjunctions.len();
        let ghost parts = self@.map_values(|inv: Seq<FormulaView>| "("@ + spec_invariant_jg_text(inv, texts_of(signal_mapping@)) + ")"@);
        for i in 0..n
            invariant
                n == self@.len(),
                disjunction_mapping_covers(self@, texts_of(signal_mapping@)),
                parts == self@.map_values(|inv: Seq<FormulaView>| "("@ + spec_invariant_jg_text(inv, texts_of(signal_mapping@)) + ")"@),
                s@ == spec_join(parts.take(i as int), " || "@),
        {
            proof { lemma_join_step(parts, " || "@, i as int); }
            if i > 0 {
                s.append(" || ");
            }
            assert(invariant_mapping_covers(self@[i as int], texts_of(signal_mapping@)));
            let t = self.disjunctions[i].to_jg_string_with_signal_mapping(signal_mapping);
            s.append("(");
            s.append(&t);
            s.append(")");
        }
        assert(parts.take(n as int) =~= parts);
        s
    }

    /// Each conjunction in parentheses, joined by ` || `, as the `Display` form prints it.
    pub fn to_string(&self) -> (r: String)
        ensures
            r@ == spec_disjunction_text(self@),
    {
        let mut s = String::new();
        let n = self.disjunctions.len();
        let ghost parts = self@.map_values(|inv: Seq<FormulaView>| "("@ + spec_invariant_text(inv) + ")"@);
        for i in 0..n
            invariant
                n == self@.len(),
                parts == self@.map_values(|inv: Seq<FormulaView>| "("@ + spec_invariant_text(inv) + ")"@),
                s@ == spec_join(parts.take(i as int), " || "@),
        {
            proof { lemma_join_step(parts, " || "@, i as int); }
            if i > 0 {
                s.append(" || ");
            }
            let t = self.disjunctions[i].to_string();
            s.append("(");
            s.append(&t);
            s.append(")");
        }
        assert(parts.take(n as int) =~= parts);
        s
    }
}

impl Default for InvariantDisjunction {
    fn default() -> (r: Self)
        ensures
            r@ == Seq::<Seq<FormulaView>>::empty(),
    {
        InvariantDisjunction::new()
    }
}

fn disjunction_signal_names(invs: &Vec<Invariant>) -> (r: Vec<String>)
    ensures
        names_view(r@).to_set() == disj_names_flat(invariants_view(invs@)).to_set(),
        names_view(r@).no_duplicates(),
{
    let mut r: Vec<String> = Vec::new();
    let n = invs.len();
    let ghost v = invariants_view(invs@);
    assert(names_view(r@).to_set() =~= disj_names_flat(v.take(0)).to_set());
    for i in 0..n
        invariant
            n == invs@.len(),
            v == invariants_view(invs@),
            names_view(r@).to_set() == disj_names_flat(v.take(i as int)).to_set(),
            names_view(r@).no_duplicates(),
    {
        proof {
            assert(v.take(i + 1).drop_last() =~= v.take(i as int));
            assert(v.take(i + 1).last() == v[i as int]);
        }
        let names = invs[i].get_signal_names();
        extend_unique_names(&mut r, &names);
        proof {
            vstd::seq_lib::seq_to_set_distributes_over_add(disj_names_flat(v.take(i as int)), preds_names_flat(v[i as int]));
            assert(names_view(r@).to_set() =~= disj_names_flat(v.take(i + 1)).to_set());
        }
    }
    assert(v.take(n as int) =~= v);
    r
}

/// A separator: a single conjunction or a disjunction of conjunctions.
#[derive(Clone, Debug)]
pub enum SeparatorFormula {
    InvariantDisjunction(InvariantDisjunction),
    Invariant(Invariant),
}

/// A separator as a disjunction: a single conjunction is a one-element disjunction.
pub open spec fn separator_as_disjunction(f: &SeparatorFormula) -> Seq<Seq<FormulaView>> {
    match f {
        SeparatorFormula::InvariantDisjunction(d) => d@,
        SeparatorFormula::Invariant(i) => seq![i@],
    }
}

impl SeparatorFormula {
    pub fn to_jg_string_with_signal_mapping(&self, signal_mapping: &HashMap<u64, String>) -> (r: String)
        requires
            disjunction_mapping_covers(separator_as_disjunction(self), texts_of(signal_mapping@)),
        ensures
            r@ == match self {
                SeparatorFormula::InvariantDisjunction(d) => spec_disjunction_jg_text(d@, texts_of(signal_mapping@)),
                SeparatorFormula::Invariant(i) => spec_invariant_jg_text(i@, texts_of(signal_mapping@)),
            },
    {
        match self {
            SeparatorFormula::InvariantDisjunction(d) => d.to_jg_string_with_signal_mapping(signal_mapping),
            SeparatorFormula::Invariant(i) => {
                assert(invariant_mapping_covers(separator_as_disjunction(self)[0], texts_of(signal_mapping@)));
                i.to_jg_string_with_signal_mapping(signal_mapping)
            },
        }
    }

    pub fn get_relevant_signal_idx(&self) -> (r: HashSet<u64>)
        ensures
            r@ == disj_known_idx(separator_as_disjunction(self)),
    {
        match self {
            SeparatorFormula::InvariantDisjunction(d) => d.get_relevant_signal_idx(),
            SeparatorFormula::Invariant(i) => {
                let r = i.get_signal_idx();
                assert(seq![i@].drop_last() =~= Seq::<Seq<FormulaView>>::empty());
                assert(seq![i@].last() == i@);
                let ghost sd = separator_as_disjunction(self);
                assert(sd == seq![i@]);
                assert(disj_known_idx(sd) == disj_known_idx(sd.drop_last()).union(preds_known_idx(sd.last())));
                assert(disj_known_idx(sd.drop_last()) == Set::<u64>::empty());
                assert(r@ =~= disj_known_idx(sd));
                r
            },
        }
    }

    /// The names of the signals the separator reads, each once.
    pub fn get_relevant_signals(&self) -> (r: Vec<String>)
        ensures
            names_view(r@).to_set() == disj_names_flat(separator_as_disjunction(self)).to_set(),
            names_view(r@).no_duplicates(),
    {
        match self {
            SeparatorFormula::InvariantDisjunction(d) => d.get_relevant_signals(),
            SeparatorFormula::Invariant(i) => {
                let r = i.get_signal_names();
                assert(seq![i@].drop_last() =~= Seq::<Seq<FormulaView>>::empty());
                assert(seq![i@].last() == i@);
                let ghost sd = separator_as_disjunction(self);
                assert(sd == seq![i@]);
                assert(disj_names_flat(sd) == disj_names_flat(sd.drop_last()) + preds_names_flat(sd.last()));
                assert(disj_names_flat(sd.drop_last()) == Seq::<Seq<char>>::empty());
                assert(disj_names_flat(sd) =~= preds_names_flat(i@));
                r
            },
        }
    }

    /// The predicates of all conjunctions of the separator, in order.
    pub fn get_all_predicates(&self) -> (r: Vec<BasePredicate>)
        ensures
            preds_view(r@) == disj_preds_flat(separator_as_disjunction(self)),
    {
        let mut r: Vec<BasePredicate> = Vec::new();
        match self {
            SeparatorFormula::InvariantDisjunction(d) => {
                let n = d.disjunctions.len();
                let ghost v = d@;
                assert(preds_view(r@) =~= disj_preds_flat(v.take(0)));
                for i in 0..n
                    invariant
                        n == d.disjunctions@.len(),
                        v == d@,
                        preds_view(r@) == disj_preds_flat(v.take(i as int)),
                {
                    proof {
                        assert(v.take(i + 1).drop_last() =~= v.take(i as int));
                        assert(v.take(i + 1).last() == v[i as int]);
                    }
                    append_predicates(&mut r, &d.disjunctions[i]);
                    assert(preds_view(r@) =~= disj_preds_flat(v.take(i + 1)));
                }
                assert(v.take(n as int) =~= v);
            },
            SeparatorFormula::Invariant(i) => {
                append_predicates(&mut r, i);
                assert(seq![i@].drop_last() =~= Seq::<Seq<FormulaView>>::empty());
                assert(seq![i@].last() == i@);
                let ghost sd = separator_as_disjunction(self);
                assert(sd == seq![i@]);
                assert(disj_preds_flat(sd) == disj_preds_flat(sd.drop_last()) + sd.last());
                assert(disj_preds_flat(sd.drop_last()) == Seq::<FormulaView>::empty());
                assert(preds_view(r@) =~= disj_preds_flat(sd));
            },
        }
        r
    }

    /// The text of the separator, as its `Display` form prints it.
    pub fn to_string(&self) -> (r: String)
        ensures
            r@ == match self {
                SeparatorFormula::InvariantDisjunction(d) => spec_disjunction_text(d@),
                SeparatorFormula::Invariant(i) => spec_invariant_text(i@),
            },
    {
        match self {
            SeparatorFormula::InvariantDisjunction(d) => d.to_string(),
            SeparatorFormula::Invariant(i) => i.to_string(),
        }
    }
}

fn append_predicates(r: &mut Vec<BasePredicate>, inv: &Invariant)
    ensures
        preds_view(final(r)@) == preds_view(old(r)@) + inv@,
{
    let n = inv.predicate_set.predicates.len();
    for j in 0..n
        invariant
            n == inv@.len(),
            preds_view(r@) == preds_view(old(r)@) + inv@.take(j as int),
    {
        let ghost r_old = r@;
        let d = inv.predicate_set.predicates[j].duplicate();
        r.push(d);
        assert(preds_view(r@) =~= preds_view(r_old).push(inv@[j as int]));
        assert(preds_view(r@) =~= preds_view(old(r)@) + inv@.take(j + 1));
    }
    assert(inv@.take(n as int) =~= inv@);
}

impl Default for SeparatorFormula {
    fn default() -> (r: Self)
        ensures
            separator_as_disjunction(&r) == Seq::<Seq<FormulaView>>::empty(),
            r is InvariantDisjunction,
    {
        SeparatorFormula::InvariantDisjunction(InvariantDisjunction::new())
    }
}

/// A separator together with the file it was read from.
#[derive(Clone, Debug)]
pub struct SeparatorFormulaWithPath {
    pub separator_formula: SeparatorFormula,
    pub path: String,
}

/// A conjunction together with the file it was read from.
#[derive(Clone, Debug)]
pub struct InvariantWithPath {
    pub invariant: Invariant,
    pub path: String,
}


// ----------------------------------------------------------------------------
// Scores
// ----------------------------------------------------------------------------

/// Outcome of scoring a formula on one criterion.
#[derive(Debug, PartialEq, Eq, Structural, Clone, Copy, Hash, PartialOrd, Ord)]
pub enum ScoreResult {
    NotEvaluated,
    Unsat,
    Sat(i64),
}

impl Default for ScoreResult {
    fn default() -> (r: Self)
        ensures
            r == ScoreResult::NotEvaluated,
    {
        ScoreResult::NotEvaluated
    }
}

/// The score of a satisfiable result, zero otherwise.
pub open spec fn spec_inner_or_zero(s: ScoreResult) -> i64 {
    match s {
        ScoreResult::Sat(i) => i,
        _ => 0,
    }
}

/// The debug form of a score: `NotEvaluated`, `Unsat` or `Sat(n)`.
pub open spec fn score_result_text(r: ScoreResult) -> Seq<char> {
    match r {
        ScoreResult::NotEvaluated => "NotEvaluated"@,
        ScoreResult::Unsat => "Unsat"@,
        ScoreResult::Sat(n) => "Sat("@ + int_decimal(n as int) + ")"@,
    }
}

/// The three scores, labelled, as the `Display` form of the scores prints them.
pub open spec fn priority_scores_text(p: PriorityScores) -> Seq<char> {
    "cex_only_score: "@ + score_result_text(p.cex_only_score)
        + ", cex_with_bex_allow_score: "@ + score_result_text(p.cex_with_bex_allow_score)
        + ", cex_and_bex_score: "@ + score_result_text(p.cex_and_bex_score)
}

/// The debug form of the scores: the struct with its three fields.
pub open spec fn priority_scores_debug_text(p: PriorityScores) -> Seq<char> {
    "PriorityScores { cex_only_score: "@ + score_result_text(p.cex_only_score)
        + ", cex_with_bex_allow_score: "@ + score_result_text(p.cex_with_bex_allow_score)
        + ", cex_and_bex_score: "@ + score_result_text(p.cex_and_bex_score) + " }"@
}

impl ScoreResult {
    /// The score in its debug form.
    pub fn to_debug_string(&self) -> (r: String)
        ensures
            r@ == score_result_text(*self),
    {
        match self {
            ScoreResult::NotEvaluated => String::from_str("NotEvaluated"),
            ScoreResult::Unsat => String::from_str("Unsat"),
            ScoreResult::Sat(n) => {
                let mut s = String::from_str("Sat(");
                let d = i64_to_decimal(*n);
                s.append(&d);
                s.append(")");
                s
            },
        }
    }

    pub fn get_inner_or_zero(&self) -> (r: i64)
        ensures
            r == spec_inner_or_zero(*self),
    {
        match self {
            ScoreResult::Sat(i) => *i,
            _ => 0,
        }
    }

    /// Adds to a satisfiable score and leaves an unsatisfiable one alone; a
    /// score that was never evaluated must not be added to.
    pub fn add_if_sat_or_ignore(&mut self, score_to_add: i64)
        requires
            *old(self) != ScoreResult::NotEvaluated,
            *old(self) is Sat ==> i64::MIN <= spec_inner_or_zero(*old(self)) + score_to_add <= i64::MAX,
        ensures
            *old(self) is Sat ==> *final(self) == ScoreResult::Sat((spec_inner_or_zero(*old(self)) + score_to_add) as i64),
            *old(self) is Unsat ==> *final(self) == ScoreResult::Unsat,
    {
        match self {
            ScoreResult::Sat(i) => {
                *i = *i + score_to_add;
            },
            _ => {},
        }
    }
}

/// The three scores of a formula.
#[derive(Debug, PartialEq, Eq, Structural, Clone, Copy, Hash)]
pub struct PriorityScores {
    pub cex_only_score: ScoreResult,
    pub cex_with_bex_allow_score: ScoreResult,
    pub cex_and_bex_score: ScoreResult,
}

impl Default for PriorityScores {
    fn default() -> (r: Self)
        ensures
            r.cex_only_score == ScoreResult::NotEvaluated,
            r.cex_with_bex_allow_score == ScoreResult::NotEvaluated,
            r.cex_and_bex_score == ScoreResult::NotEvaluated,
    {
        PriorityScores {
            cex_only_score: ScoreResult::NotEvaluated,
            cex_with_bex_allow_score: ScoreResult::NotEvaluated,
            cex_and_bex_score: ScoreResult::NotEvaluated,
        }
    }
}

/// Which states a formula covers, and how they split into counterexample
/// states it blocks and benign states it allows.
#[derive(Debug)]
pub struct CoverInformation {
    pub covered_states: BitSetWrapper,
    pub blocked_cex_states: BitSetWrapper,
    pub allowed_bex_states: BitSetWrapper,
}

impl Default for CoverInformation {
    fn default() -> (r: Self)
        ensures
            r.covered_states@ == Set::<u32>::empty(),
            r.blocked_cex_states@ == Set::<u32>::empty(),
            r.allowed_bex_states@ == Set::<u32>::empty(),
    {
        CoverInformation {
            covered_states: BitSetWrapper::new(),
            blocked_cex_states: BitSetWrapper::new(),
            allowed_bex_states: BitSetWrapper::new(),
        }
    }
}

/// Scores of a formula together with the states it covers.
#[derive(Debug)]
pub struct ScoreAndFulfilledExample {
    pub score: PriorityScores,
    pub cover_info: CoverInformation,
}

/// A conjunction with its scores and covered states.
#[derive(Debug)]
pub struct ScoredInvariantWithFulfilledExample {
    pub invariant: Invariant,
    pub score: ScoreAndFulfilledExample,
}

impl PriorityScores {
    /// The three scores, labelled, as the `Display` form prints them.
    pub fn to_string(&self) -> (r: String)
        ensures
            r@ == priority_scores_text(*self),
    {
        let mut s = String::from_str("cex_only_score: ");
        let a = self.cex_only_score.to_debug_string();
        s.append(&a);
        s.append(", cex_with_bex_allow_score: ");
        let b = self.cex_with_bex_allow_score.to_debug_string();
        s.append(&b);
        s.append(", cex_and_bex_score: ");
        let c = self.cex_and_bex_score.to_debug_string();
        s.append(&c);
        s
    }

    /// The scores in their debug form.
    pub fn to_debug_string(&self) -> (r: String)
        ensures
            r@ == priority_scores_debug_text(*self),
    {
        let mut s = String::from_str("PriorityScores { cex_only_score: ");
        let a = self.cex_only_score.to_debug_string();
        s.append(&a);
        s.append(", cex_with_bex_allow_score: ");
        let b = self.cex_with_bex_allow_score.to_debug_string();
        s.append(&b);
        s.append(", cex_and_bex_score: ");
        let c = self.cex_and_bex_score.to_debug_string();
        s.append(&c);
        s.append(" }");
        s
    }
}

impl ScoredInvariantWithFulfilledExample {
    /// The conjunction and its scores, as the `Display` form prints them.
    pub fn to_string(&self) -> (r: String)
        ensures
            r@ == "invariant: "@ + spec_invariant_text(self.invariant@) + " score: "@
                + priority_scores_debug_text(self.score.score),
    {
        let mut s = String::from_str("invariant: ");
        let inv = self.invariant.to_string();
        s.append(&inv);
        s.append(" score: ");
        let sc = self.score.score.to_debug_string();
        s.append(&sc);
        s
    }
}

/// A conjunction with its scores.
#[derive(Debug, Clone)]
pub struct ScoredInvariant {
    pub invariant: Invariant,
    pub score: PriorityScores,
}


/// A score divided by a predicate count, rounded toward zero.
pub fn per_predicate_score(score: i64, num_predicates: usize) -> (r: i64)
    requires
        0 < num_predicates <= i64::MAX,
    ensures
        r == crate::constants::trunc_div(score as int, num_predicates as int),
{
    let s = score as i128;
    let n = num_predicates as i128;
    let q: i128 = if s >= 0 {
        assert(s / n <= s) by (nonlinear_arith) requires s >= 0, n > 0;
        assert(s / n >= 0) by (nonlinear_arith) requires s >= 0, n > 0;
        s / n
    } else {
        let m: i128 = -s;
        assert(m / n <= m) by (nonlinear_arith) requires m > 0, n > 0;
        assert(m / n >= 0) by (nonlinear_arith) requires m > 0, n > 0;
        -(m / n)
    };
    let r = q as i64;
    r
}

/// Some predicate of the conjunction uses `>=` or `<=`.
pub open spec fn has_range_operator(s: Seq<FormulaView>) -> bool {
    exists|i: int| 0 <= i < s.len() && (spec_pred_operator(#[trigger] s[i]) == Operator::GreaterEqual
        || spec_pred_operator(s[i]) == Operator::SmallerEqual)
}

impl Invariant {
    /// Some predicate uses `>=` or `<=`.
    pub fn uses_range_operator(&self) -> (r: bool)
        ensures
            r == has_range_operator(self@),
    {
        let n = self.predicate_set.predicates.len();
        for i in 0..n
            invariant
                n == self@.len(),
                forall|k: int| 0 <= k < i ==> !(spec_pred_operator(#[trigger] self@[k]) == Operator::GreaterEqual
                    || spec_pred_operator(self@[k]) == Operator::SmallerEqual),
        {
            let op = self.predicate_set.predicates[i].get_operator();
            if op == Operator::GreaterEqual || op == Operator::SmallerEqual {
                assert(spec_pred_operator(self@[i as int]) == op);
                return true;
            }
        }
        false
    }
}

/// The predicate with the name of each signal it reads replaced by the name
/// `mapping` gives its index; a set test is left as it is.
pub open spec fn renamed_through(f: FormulaView, mapping: Map<u64, Seq<char>>) -> FormulaView {
    match f {
        FormulaView::SignalToConst(x) => FormulaView::SignalToConst(
            ConstFormulaView { signal_name: mapping[x.signal_idx->0], ..x }),
        FormulaView::TwoSignalEqual(x) => FormulaView::TwoSignalEqual(
            TwoSignalView { signal_name1: mapping[x.signal_idx1->0], signal_name2: mapping[x.signal_idx2->0], ..x }),
        _ => f,
    }
}

/// The JasperGold text of a comparison (of a signal with a constant, or of
/// two signals) is its ordinary text with the signals renamed: the same
/// operator, the same constant, the mapped names in the same order.
pub proof fn law_jg_text_is_renamed_text(f: FormulaView, mapping: Map<u64, Seq<char>>)
    requires
        f is SignalToConst || f is TwoSignalEqual,
        jg_mapping_covers(f, mapping),
    ensures
        spec_pred_jg_text(f, mapping) == spec_pred_text(renamed_through(f, mapping)),
{
}

/// Where the mapping gives each signal of a comparison its own name, the
/// JasperGold text is the ordinary text.
pub proof fn law_jg_text_with_own_names(f: FormulaView, mapping: Map<u64, Seq<char>>)
    requires
        jg_mapping_covers(f, mapping),
        f matches FormulaView::SignalToConst(x) ==> mapping[x.signal_idx->0] == x.signal_name,
        f matches FormulaView::TwoSignalEqual(x) ==> mapping[x.signal_idx1->0] == x.signal_name1
            && mapping[x.signal_idx2->0] == x.signal_name2,
        f is SignalToConst || f is TwoSignalEqual,
    ensures
        spec_pred_jg_text(f, mapping) == spec_pred_text(f),
{
}

/// A membership test in one value reads in JasperGold as the equality with
/// that value, and an exclusion of one value as the inequality with it.
pub proof fn law_jg_single_value_set_test_is_comparison(x: SetFormulaView, v: i64, mapping: Map<u64, Seq<char>>)
    requires
        x.values == seq![v],
    ensures
        spec_pred_jg_text(FormulaView::ValueIn(x), mapping) == spec_pred_jg_text(FormulaView::SignalToConst(
            ConstFormulaView { signal_name: x.signal_name, signal_idx: x.signal_idx, operator: Operator::Equal,
                signal_length: x.signal_length, signal_types: x.signal_types, value: v }), mapping),
        spec_pred_jg_text(FormulaView::ValueNotIn(x), mapping) == spec_pred_jg_text(FormulaView::SignalToConst(
            ConstFormulaView { signal_name: x.signal_name, signal_idx: x.signal_idx, operator: Operator::NotEqual,
                signal_length: x.signal_length, signal_types: x.signal_types, value: v }), mapping),
{
    let name = mapping[x.signal_idx->0];
    assert(jg_value_parts(name, "=="@, x.values)[0] == name + " "@ + "=="@ + " "@ + int_decimal(v as int));
    assert(jg_value_parts(name, "!="@, x.values)[0] == name + " "@ + "!="@ + " "@ + int_decimal(v as int));
}

} // verus!
