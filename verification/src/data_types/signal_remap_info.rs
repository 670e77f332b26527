//! Verilog expressions that define signals the simulator inserted, and
//! their rendering with signal names mapped to the formal tool's names.

use vstd::prelude::*;
use vstd::string::*;
use std::collections::HashMap;
use crate::samples::{first_id, first_id_of};
use crate::text::{nat_decimal, u64_to_decimal};
use crate::predicates::{names_view, texts_of};
use crate::data_types::signal_filters::{JGFilterInfo, SignalFilter, first_occurrences};
use crate::jg_formatter::{jg_match, spec_verilator_like, split_on, split_chars, string_from_chars};
use crate::text::chars_of;
use std::collections::HashSet;
use crate::ordering::{text_less, text_lt, lemma_text_less_trichotomy, lemma_text_less_transitive};

verus! {

broadcast use vstd::std_specs::hash::group_hash_axioms;

/// A Verilog expression.
#[derive(Debug)]
pub enum Expr {
    Var { name: String },
    Const { value: String },
    Unary { op: String, arg: Box<Expr> },
    Binary { op: String, lhs: Box<Expr>, rhs: Box<Expr> },
    Mux { cond: Box<Expr>, then_branch: Box<Expr>, else_branch: Box<Expr> },
    Slice { value: Box<Expr>, lsb: Box<Expr>, width: Option<u32> },
    Index { value: Box<Expr>, index: Box<Expr> },
    Concat { lhs: Box<Expr>, rhs: Box<Expr> },
    Replicate { count: Box<Expr>, value: Box<Expr> },
    Unknown { node: String },
}

/// The Verilog spelling of an operator name; unknown names stay as they are.
pub open spec fn verilog_op(op: Seq<char>) -> Seq<char> {
    if op == "and"@ { "&"@ }
    else if op == "or"@ { "|"@ }
    else if op == "xor"@ { "^"@ }
    else if op == "land"@ { "&&"@ }
    else if op == "lor"@ { "||"@ }
    else if op == "not"@ || op == "lnot"@ { "!"@ }
    else if op == "add"@ { "+"@ }
    else if op == "sub"@ { "-"@ }
    else if op == "mul"@ { "*"@ }
    else if op == "div"@ { "/"@ }
    else if op == "mod"@ { "%"@ }
    else if op == "lt"@ { "<"@ }
    else if op == "lte"@ { "<="@ }
    else if op == "gt"@ { ">"@ }
    else if op == "gte"@ { ">="@ }
    else if op == "eq"@ { "=="@ }
    else if op == "ne"@ { "!="@ }
    else if op == "eqx"@ { "==="@ }
    else if op == "nex"@ { "!=="@ }
    else if op == "shl"@ { "<<"@ }
    else if op == "shr"@ { ">>"@ }
    else if op == "ashr"@ { ">>>"@ }
    else if op == "redor"@ { "|"@ }
    else if op == "redand"@ { "&"@ }
    else if op == "redxor"@ { "^"@ }
    else { op }
}

fn is_op(o: &String, name: &str) -> (r: bool)
    ensures
        r == (o@ == name@),
{
    *o == String::from_str(name)
}

/// The Verilog spelling of an operator name.
fn op_to_verilog<'a>(op: &'a str) -> (r: &'a str)
    ensures
        r@ == verilog_op(op@),
{
    let o: String = op.to_owned();
    if is_op(&o, "and") { "&" }
    else if is_op(&o, "or") { "|" }
    else if is_op(&o, "xor") { "^" }
    else if is_op(&o, "land") { "&&" }
    else if is_op(&o, "lor") { "||" }
    else if is_op(&o, "not") || is_op(&o, "lnot") { "!" }
    else if is_op(&o, "add") { "+" }
    else if is_op(&o, "sub") { "-" }
    else if is_op(&o, "mul") { "*" }
    else if is_op(&o, "div") { "/" }
    else if is_op(&o, "mod") { "%" }
    else if is_op(&o, "lt") { "<" }
    else if is_op(&o, "lte") { "<=" }
    else if is_op(&o, "gt") { ">" }
    else if is_op(&o, "gte") { ">=" }
    else if is_op(&o, "eq") { "==" }
    else if is_op(&o, "ne") { "!=" }
    else if is_op(&o, "eqx") { "===" }
    else if is_op(&o, "nex") { "!==" }
    else if is_op(&o, "shl") { "<<" }
    else if is_op(&o, "shr") { ">>" }
    else if is_op(&o, "ashr") { ">>>" }
    else if is_op(&o, "redor") { "|" }
    else if is_op(&o, "redand") { "&" }
    else if is_op(&o, "redxor") { "^" }
    else { op }
}

pub open spec fn names_opt(m: Option<&Vec<(String, u64)>>) -> Option<Seq<(String, u64)>> {
    match m {
        Some(v) => Some(v@),
        None => None,
    }
}

/// The texts of the values of a map.

pub open spec fn map_opt(m: Option<&HashMap<u64, String>>) -> Option<Map<u64, Seq<char>>> {
    match m {
        Some(v) => Some(texts_of(v@)),
        None => None,
    }
}

/// A variable can be renamed: without a name table it keeps its name; with
/// one, its name has an id and that id a name in `jg`.
pub open spec fn var_resolvable(name: Seq<char>, names: Option<Seq<(String, u64)>>, jg: Option<Map<u64, Seq<char>>>) -> bool {
    match names {
        None => true,
        Some(ns) => match first_id_of(ns, name) {
            Some(id) => jg.is_some() && jg.unwrap().contains_key(id),
            None => false,
        },
    }
}

/// The name a variable is printed with.
pub open spec fn var_text(name: Seq<char>, names: Option<Seq<(String, u64)>>, jg: Option<Map<u64, Seq<char>>>) -> Seq<char> {
    match names {
        None => name,
        Some(ns) => jg.unwrap()[first_id_of(ns, name).unwrap()],
    }
}

/// Every variable of the expression can be renamed.
pub open spec fn expr_resolvable(e: Expr, names: Option<Seq<(String, u64)>>, jg: Option<Map<u64, Seq<char>>>) -> bool
    decreases e,
{
    match e {
        Expr::Var { name } => var_resolvable(name@, names, jg),
        Expr::Const { .. } => true,
        Expr::Unary { arg, .. } => expr_resolvable(*arg, names, jg),
        Expr::Binary { lhs, rhs, .. } => expr_resolvable(*lhs, names, jg) && expr_resolvable(*rhs, names, jg),
        Expr::Mux { cond, then_branch, else_branch } => expr_resolvable(*cond, names, jg)
            && expr_resolvable(*then_branch, names, jg) && expr_resolvable(*else_branch, names, jg),
        Expr::Slice { value, lsb, .. } => expr_resolvable(*value, names, jg) && expr_resolvable(*lsb, names, jg),
        Expr::Index { value, index } => expr_resolvable(*value, names, jg) && expr_resolvable(*index, names, jg),
        Expr::Concat { lhs, rhs } => expr_resolvable(*lhs, names, jg) && expr_resolvable(*rhs, names, jg),
        Expr::Replicate { count, value } => expr_resolvable(*count, names, jg) && expr_resolvable(*value, names, jg),
        Expr::Unknown { .. } => true,
    }
}

/// The Verilog text of an expression with variables renamed.
pub open spec fn expr_text(e: Expr, names: Option<Seq<(String, u64)>>, jg: Option<Map<u64, Seq<char>>>) -> Seq<char>
    decreases e,
{
    match e {
        Expr::Var { name } => var_text(name@, names, jg),
        Expr::Const { value } => value@,
        Expr::Unary { op, arg } => "("@ + verilog_op(op@) + expr_text(*arg, names, jg) + ")"@,
        Expr::Binary { op, lhs, rhs } => "("@ + expr_text(*lhs, names, jg) + " "@ + verilog_op(op@) + " "@
            + expr_text(*rhs, names, jg) + ")"@,
        Expr::Mux { cond, then_branch, else_branch } => "("@ + expr_text(*cond, names, jg) + " ? "@
            + expr_text(*then_branch, names, jg) + " : "@ + expr_text(*else_branch, names, jg) + ")"@,
        Expr::Slice { value, lsb, width } => match width {
            Some(w) => expr_text(*value, names, jg) + "["@ + expr_text(*lsb, names, jg) + " +: "@
                + nat_decimal(w as nat) + "]"@,
            None => expr_text(*value, names, jg) + "["@ + expr_text(*lsb, names, jg) + "]"@,
        },
        Expr::Index { value, index } => expr_text(*value, names, jg) + "["@ + expr_text(*index, names, jg) + "]"@,
        Expr::Concat { lhs, rhs } => "{"@ + expr_text(*lhs, names, jg) + ", "@ + expr_text(*rhs, names, jg) + "}"@,
        Expr::Replicate { count, value } => "{"@ + expr_text(*count, names, jg) + "{"@ + expr_text(*value, names, jg)
            + "}}"@,
        Expr::Unknown { node } => "/* Unknown node: "@ + node@ + " */"@,
    }
}

/// The names of the variables of an expression, left to right.
pub open spec fn expr_vars(e: Expr) -> Seq<Seq<char>>
    decreases e,
{
    match e {
        Expr::Var { name } => seq![name@],
        Expr::Const { .. } => Seq::empty(),
        Expr::Unary { arg, .. } => expr_vars(*arg),
        Expr::Binary { lhs, rhs, .. } => expr_vars(*lhs) + expr_vars(*rhs),
        Expr::Mux { cond, then_branch, else_branch } => expr_vars(*cond) + expr_vars(*then_branch)
            + expr_vars(*else_branch),
        Expr::Slice { value, lsb, .. } => expr_vars(*value) + expr_vars(*lsb),
        Expr::Index { value, index } => expr_vars(*value) + expr_vars(*index),
        Expr::Concat { lhs, rhs } => expr_vars(*lhs) + expr_vars(*rhs),
        Expr::Replicate { count, value } => expr_vars(*count) + expr_vars(*value),
        Expr::Unknown { .. } => Seq::empty(),
    }
}

/// The texts come in strictly increasing text order.
pub open spec fn strictly_sorted(s: Seq<Seq<char>>) -> bool {
    forall|i: int, j: int| 0 <= i < j < s.len() ==> text_less(#[trigger] s[i], #[trigger] s[j])
}

proof fn lemma_resolvable_without_names(e: Expr)
    ensures
        expr_resolvable(e, None, None),
    decreases e,
{
    match e {
        Expr::Var { .. } => {},
        Expr::Const { .. } => {},
        Expr::Unary { arg, .. } => lemma_resolvable_without_names(*arg),
        Expr::Binary { lhs, rhs, .. } => {
            lemma_resolvable_without_names(*lhs);
            lemma_resolvable_without_names(*rhs);
        },
        Expr::Mux { cond, then_branch, else_branch } => {
            lemma_resolvable_without_names(*cond);
            lemma_resolvable_without_names(*then_branch);
            lemma_resolvable_without_names(*else_branch);
        },
        Expr::Slice { value, lsb, .. } => {
            lemma_resolvable_without_names(*value);
            lemma_resolvable_without_names(*lsb);
        },
        Expr::Index { value, index } => {
            lemma_resolvable_without_names(*value);
            lemma_resolvable_without_names(*index);
        },
        Expr::Concat { lhs, rhs } => {
            lemma_resolvable_without_names(*lhs);
            lemma_resolvable_without_names(*rhs);
        },
        Expr::Replicate { count, value } => {
            lemma_resolvable_without_names(*count);
            lemma_resolvable_without_names(*value);
        },
        Expr::Unknown { .. } => {},
    }
}

proof fn lemma_split_vars(a: Seq<Seq<char>>, b: Seq<Seq<char>>, names: Option<Seq<(String, u64)>>, jg: Option<Map<u64, Seq<char>>>)
    requires
        forall|k: int| 0 <= k < (a + b).len() ==> var_resolvable(#[trigger] (a + b)[k], names, jg),
    ensures
        forall|k: int| 0 <= k < a.len() ==> var_resolvable(#[trigger] a[k], names, jg),
        forall|k: int| 0 <= k < b.len() ==> var_resolvable(#[trigger] b[k], names, jg),
{
    assert forall|k: int| 0 <= k < a.len() implies var_resolvable(#[trigger] a[k], names, jg) by {
        assert((a + b)[k] == a[k]);
    }
    assert forall|k: int| 0 <= k < b.len() implies var_resolvable(#[trigger] b[k], names, jg) by {
        assert((a + b)[a.len() + k] == b[k]);
    }
}

/// An expression whose variables can all be renamed can be rendered.
pub proof fn lemma_resolvable_if_vars_resolvable(e: Expr, names: Option<Seq<(String, u64)>>, jg: Option<Map<u64, Seq<char>>>)
    requires
        forall|k: int| 0 <= k < expr_vars(e).len() ==> var_resolvable(#[trigger] expr_vars(e)[k], names, jg),
    ensures
        expr_resolvable(e, names, jg),
    decreases e,
{
    match e {
        Expr::Var { name } => {
            assert(expr_vars(e)[0] == name@);
        },
        Expr::Const { .. } => {},
        Expr::Unary { arg, .. } => {
            assert(expr_vars(e) == expr_vars(*arg));
            lemma_resolvable_if_vars_resolvable(*arg, names, jg);
        },
        Expr::Binary { lhs, rhs, .. } => {
            assert(expr_vars(e) == expr_vars(*lhs) + expr_vars(*rhs));
            lemma_split_vars(expr_vars(*lhs), expr_vars(*rhs), names, jg);
            lemma_resolvable_if_vars_resolvable(*lhs, names, jg);
            lemma_resolvable_if_vars_resolvable(*rhs, names, jg);
        },
        Expr::Slice { value, lsb, .. } => {
            assert(expr_vars(e) == expr_vars(*value) + expr_vars(*lsb));
            lemma_split_vars(expr_vars(*value), expr_vars(*lsb), names, jg);
            lemma_resolvable_if_vars_resolvable(*value, names, jg);
            lemma_resolvable_if_vars_resolvable(*lsb, names, jg);
        },
        Expr::Index { value, index } => {
            assert(expr_vars(e) == expr_vars(*value) + expr_vars(*index));
            lemma_split_vars(expr_vars(*value), expr_vars(*index), names, jg);
            lemma_resolvable_if_vars_resolvable(*value, names, jg);
            lemma_resolvable_if_vars_resolvable(*index, names, jg);
        },
        Expr::Concat { lhs, rhs } => {
            assert(expr_vars(e) == expr_vars(*lhs) + expr_vars(*rhs));
            lemma_split_vars(expr_vars(*lhs), expr_vars(*rhs), names, jg);
            lemma_resolvable_if_vars_resolvable(*lhs, names, jg);
            lemma_resolvable_if_vars_resolvable(*rhs, names, jg);
        },
        Expr::Replicate { count, value } => {
            assert(expr_vars(e) == expr_vars(*count) + expr_vars(*value));
            lemma_split_vars(expr_vars(*count), expr_vars(*value), names, jg);
            lemma_resolvable_if_vars_resolvable(*count, names, jg);
            lemma_resolvable_if_vars_resolvable(*value, names, jg);
        },
        Expr::Mux { cond, then_branch, else_branch } => {
            let a = expr_vars(*cond);
            let b = expr_vars(*then_branch);
            let c = expr_vars(*else_branch);
            assert(expr_vars(e) == (a + b) + c);
            lemma_split_vars(a + b, c, names, jg);
            lemma_split_vars(a, b, names, jg);
            lemma_resolvable_if_vars_resolvable(*cond, names, jg);
            lemma_resolvable_if_vars_resolvable(*then_branch, names, jg);
            lemma_resolvable_if_vars_resolvable(*else_branch, names, jg);
        },
        Expr::Unknown { .. } => {},
    }
}

fn push_str(s: &mut String, t: &str)
    ensures
        final(s)@ == old(s)@ + t@,
{
    s.append(t);
}

/// Inserts `x` at its place in a sorted list, unless it is there already.
fn insert_sorted(v: &mut Vec<String>, x: String)
    requires
        strictly_sorted(names_view(old(v)@)),
    ensures
        strictly_sorted(names_view(final(v)@)),
        names_view(final(v)@).to_set() == names_view(old(v)@).to_set().insert(x@),
{
    let ghost s = names_view(v@);
    let n = v.len();
    let mut p: usize = 0;
    while p < n
        invariant
            n == v@.len(),
            p <= n,
            s == names_view(v@),
            v@ == old(v)@,
            strictly_sorted(s),
            forall|k: int| 0 <= k < p ==> text_less(#[trigger] s[k], x@),
        ensures
            p <= n,
            p < n ==> !text_less(s[p as int], x@),
            forall|k: int| 0 <= k < p ==> text_less(#[trigger] s[k], x@),
        decreases n - p,
    {
        assert(s[p as int] == v@[p as int]@);
        if text_lt(&v[p], &x) {
            p = p + 1;
        } else {
            break;
        }
    }
    if p < n {
        assert(s[p as int] == v@[p as int]@);
        proof {
            lemma_text_less_trichotomy(s[p as int], x@);
        }
        if v[p] == x {
            assert(s.contains(x@));
            assert(s.to_set().insert(x@) =~= s.to_set());
            return;
        }
    }
    proof {
        if p < n {
            lemma_text_less_trichotomy(s[p as int], x@);
            assert(text_less(x@, s[p as int]));
        }
    }
    v.insert(p, x);
    proof {
        let t = names_view(v@);
        assert(t =~= s.insert(p as int, x@));
        assert forall|i: int, j: int| 0 <= i < j < t.len() implies text_less(#[trigger] t[i], #[trigger] t[j]) by {
            if j < p {
                assert(t[i] == s[i] && t[j] == s[j]);
            } else if j == p {
                assert(t[i] == s[i] && t[j] == x@);
            } else if i == p {
                assert(t[j] == s[j - 1]);
                if j - 1 > p {
                    lemma_text_less_transitive(x@, s[p as int], s[j - 1]);
                }
            } else if i < p {
                assert(t[i] == s[i] && t[j] == s[j - 1]);
            } else {
                assert(t[i] == s[i - 1] && t[j] == s[j - 1]);
            }
        }
        assert(t.to_set() =~= s.to_set().insert(x@)) by {
            assert forall|y: Seq<char>| t.to_set().contains(y) implies s.to_set().insert(x@).contains(y) by {
                let k = choose|k: int| 0 <= k < t.len() && t[k] == y;
                if k < p {
                    assert(s[k] == y);
                } else if k > p {
                    assert(s[k - 1] == y);
                }
            }
            assert forall|y: Seq<char>| s.to_set().insert(x@).contains(y) implies t.to_set().contains(y) by {
                if y == x@ {
                    assert(t[p as int] == y);
                } else {
                    let k = choose|k: int| 0 <= k < s.len() && s[k] == y;
                    if k < p {
                        assert(t[k] == y);
                    } else {
                        assert(t[k + 1] == y);
                    }
                }
            }
        }
    }
}

impl Expr {
    /// The Verilog text of the expression. With a name table, each variable
    /// is printed as the name `idx_to_jg_mapping` gives the id its name has.
    pub fn to_verilog(
        &self,
        maybe_verilator_to_idx_mapping: Option<&Vec<(String, u64)>>,
        idx_to_jg_mapping: Option<&HashMap<u64, String>>,
    ) -> (r: String)
        requires
            expr_resolvable(*self, names_opt(maybe_verilator_to_idx_mapping), map_opt(idx_to_jg_mapping)),
        ensures
            r@ == expr_text(*self, names_opt(maybe_verilator_to_idx_mapping), map_opt(idx_to_jg_mapping)),
        decreases self,
    {
        let m = maybe_verilator_to_idx_mapping;
        let j = idx_to_jg_mapping;
        match self {
            Expr::Var { name } => {
                match m {
                    Some(names) => {
                        let idx = first_id(names, name.as_str()).unwrap();
                        let jm = j.unwrap();
                        let mapped = jm.get(&idx).unwrap();
                        assert(texts_of(jm@)[idx] == jm@[idx]@);
                        mapped.clone()
                    },
                    None => name.clone(),
                }
            },
            Expr::Const { value } => value.clone(),
            Expr::Unary { op, arg } => {
                let mut s = String::from_str("(");
                push_str(&mut s, op_to_verilog(op.as_str()));
                let a = arg.to_verilog(m, j);
                push_str(&mut s, a.as_str());
                push_str(&mut s, ")");
                s
            },
            Expr::Binary { op, lhs, rhs } => {
                let mut s = String::from_str("(");
                let l = lhs.to_verilog(m, j);
                push_str(&mut s, l.as_str());
                push_str(&mut s, " ");
                push_str(&mut s, op_to_verilog(op.as_str()));
                push_str(&mut s, " ");
                let r = rhs.to_verilog(m, j);
                push_str(&mut s, r.as_str());
                push_str(&mut s, ")");
                s
            },
            Expr::Slice { value, lsb, width } => {
                let mut s = value.to_verilog(m, j);
                push_str(&mut s, "[");
                let l = lsb.to_verilog(m, j);
                push_str(&mut s, l.as_str());
                match width {
                    Some(w) => {
                        push_str(&mut s, " +: ");
                        let d = u64_to_decimal(*w as u64);
                        push_str(&mut s, d.as_str());
                    },
                    None => {},
                }
                push_str(&mut s, "]");
                s
            },
            Expr::Index { value, index } => {
                let mut s = value.to_verilog(m, j);
                push_str(&mut s, "[");
                let i = index.to_verilog(m, j);
                push_str(&mut s, i.as_str());
                push_str(&mut s, "]");
                s
            },
            Expr::Mux { cond, then_branch, else_branch } => {
                let mut s = String::from_str("(");
                let c = cond.to_verilog(m, j);
                push_str(&mut s, c.as_str());
                push_str(&mut s, " ? ");
                let t = then_branch.to_verilog(m, j);
                push_str(&mut s, t.as_str());
                push_str(&mut s, " : ");
                let e = else_branch.to_verilog(m, j);
                push_str(&mut s, e.as_str());
                push_str(&mut s, ")");
                s
            },
            Expr::Concat { lhs, rhs } => {
                let mut s = String::from_str("{");
                let l = lhs.to_verilog(m, j);
                push_str(&mut s, l.as_str());
                push_str(&mut s, ", ");
                let r = rhs.to_verilog(m, j);
                push_str(&mut s, r.as_str());
                push_str(&mut s, "}");
                s
            },
            Expr::Replicate { count, value } => {
                let mut s = String::from_str("{");
                let c = count.to_verilog(m, j);
                push_str(&mut s, c.as_str());
                push_str(&mut s, "{");
                let v = value.to_verilog(m, j);
                push_str(&mut s, v.as_str());
                push_str(&mut s, "}}");
                s
            },
            Expr::Unknown { node } => {
                let mut s = String::from_str("/* Unknown node: ");
                push_str(&mut s, node.as_str());
                push_str(&mut s, " */");
                s
            },
        }
    }

    /// The Verilog text with the variables' own names, as its `Display` form prints it.
    pub fn to_string(&self) -> (r: String)
        ensures
            r@ == expr_text(*self, None, None),
    {
        proof {
            lemma_resolvable_without_names(*self);
        }
        self.to_verilog(None, None)
    }

    /// Appends the names of the variables, left to right.
    fn collect_signals_from_expr(&self, signals: &mut Vec<String>)
        ensures
            names_view(final(signals)@) == names_view(old(signals)@) + expr_vars(*self),
        decreases self,
    {
        let ghost start = names_view(signals@);
        match self {
            Expr::Var { name } => {
                signals.push(name.clone());
                assert(names_view(signals@) =~= start + seq![name@]);
            },
            Expr::Const { .. } => {
                assert(start + Seq::<Seq<char>>::empty() =~= start);
            },
            Expr::Unary { arg, .. } => {
                arg.collect_signals_from_expr(signals);
            },
            Expr::Binary { lhs, rhs, .. } => {
                lhs.collect_signals_from_expr(signals);
                rhs.collect_signals_from_expr(signals);
                assert(names_view(signals@) =~= start + expr_vars(*self));
            },
            Expr::Slice { value, lsb, .. } => {
                value.collect_signals_from_expr(signals);
                lsb.collect_signals_from_expr(signals);
                assert(names_view(signals@) =~= start + expr_vars(*self));
            },
            Expr::Index { value, index } => {
                value.collect_signals_from_expr(signals);
                index.collect_signals_from_expr(signals);
                assert(names_view(signals@) =~= start + expr_vars(*self));
            },
            Expr::Mux { cond, then_branch, else_branch } => {
                cond.collect_signals_from_expr(signals);
                then_branch.collect_signals_from_expr(signals);
                else_branch.collect_signals_from_expr(signals);
                assert(names_view(signals@) =~= start + expr_vars(*self));
            },
            Expr::Concat { lhs, rhs } => {
                lhs.collect_signals_from_expr(signals);
                rhs.collect_signals_from_expr(signals);
                assert(names_view(signals@) =~= start + expr_vars(*self));
            },
            Expr::Replicate { count, value } => {
                count.collect_signals_from_expr(signals);
                value.collect_signals_from_expr(signals);
                assert(names_view(signals@) =~= start + expr_vars(*self));
            },
            Expr::Unknown { .. } => {
                assert(start + Seq::<Seq<char>>::empty() =~= start);
            },
        }
    }

    /// The names of the variables, each once, in increasing text order.
    pub fn get_signal_names(&self) -> (r: Vec<String>)
        ensures
            strictly_sorted(names_view(r@)),
            names_view(r@).to_set() == expr_vars(*self).to_set(),
    {
        let mut signals: Vec<String> = Vec::new();
        self.collect_signals_from_expr(&mut signals);
        assert(names_view(signals@) =~= expr_vars(*self));
        let mut sorted: Vec<String> = Vec::new();
        let n = signals.len();
        assert(names_view(sorted@).to_set() =~= names_view(signals@.take(0)).to_set());
        for i in 0..n
            invariant
                n == signals@.len(),
                strictly_sorted(names_view(sorted@)),
                names_view(sorted@).to_set() == names_view(signals@.take(i as int)).to_set(),
        {
            insert_sorted(&mut sorted, signals[i].clone());
            proof {
                assert(names_view(signals@.take(i + 1)) =~= names_view(signals@.take(i as int)).push(signals@[i as int]@));
                names_view(signals@.take(i as int)).lemma_push_to_set_commute(signals@[i as int]@);
            }
        }
        assert(signals@.take(n as int) =~= signals@);
        sorted
    }

    /// Every variable of the expression is one of `jg_signals`.
    pub fn expression_okay_for_signal_list(&self, jg_signals: &Vec<String>) -> (r: bool)
        ensures
            r == forall|k: int| 0 <= k < expr_vars(*self).len() ==> names_view(jg_signals@).contains(#[trigger] expr_vars(*self)[k]),
    {
        let mut signals_in_expr: Vec<String> = Vec::new();
        self.collect_signals_from_expr(&mut signals_in_expr);
        let ghost vars = expr_vars(*self);
        assert(names_view(signals_in_expr@) =~= vars);
        let n = signals_in_expr.len();
        for i in 0..n
            invariant
                n == vars.len(),
                vars == expr_vars(*self),
                names_view(signals_in_expr@) == vars,
                forall|k: int| 0 <= k < i ==> names_view(jg_signals@).contains(#[trigger] vars[k]),
        {
            assert(vars[i as int] == signals_in_expr@[i as int]@);
            if !contains_name(jg_signals, &signals_in_expr[i]) {
                assert(!names_view(jg_signals@).contains(expr_vars(*self)[i as int]));
                return false;
            }
        }
        true
    }
}

pub(crate) fn contains_name(v: &Vec<String>, s: &String) -> (r: bool)
    ensures
        r == names_view(v@).contains(s@),
{
    let n = v.len();
    for i in 0..n
        invariant
            n == v@.len(),
            forall|k: int| 0 <= k < i ==> v@[k]@ != s@,
    {
        if v[i] == *s {
            assert(names_view(v@)[i as int] == s@);
            return true;
        }
    }
    assert forall|k: int| 0 <= k < names_view(v@).len() implies names_view(v@)[k] != s@ by {
        assert(names_view(v@)[k] == v@[k]@);
    }
    false
}


/// Which signals the formal tool knows, and the expressions that define the
/// signals the simulator inserted, by name.
#[derive(Debug)]
pub struct SignalRemappingInfo {
    pub jg_signals: Option<Vec<String>>,
    pub cond_map: Option<Vec<(String, Expr)>>,
}

impl SignalRemappingInfo {
    pub fn new(jg_signals: Option<Vec<String>>, cond_map: Option<Vec<(String, Expr)>>) -> (r: Self)
        ensures
            r.jg_signals == jg_signals,
            r.cond_map == cond_map,
    {
        SignalRemappingInfo { jg_signals, cond_map }
    }

    /// The indices a search may use: every index where the formal tool's
    /// names are unknown; else those of the names it knows, and those of
    /// the inserted signals whose expression reads only such indices.
    pub fn create_allowed_signal_list_from_name_to_code_map(&self, name_to_code_map: &Vec<(String, u64)>) -> (r: HashSet<u64>)
        ensures
            r@ == allowed_codes(self.jg_signals, self.cond_map, name_to_code_map@),
    {
        let entries = name_to_code_map;
        let n = entries.len();
        match &self.jg_signals {
            None => {
                let mut all: HashSet<u64> = HashSet::new();
                for i in 0..n
                    invariant
                        n == entries@.len(),
                        all@ == all_codes(entries@.take(i as int)),
                {
                    proof {
                        assert(entries@.take(i + 1).drop_last() =~= entries@.take(i as int));
                    }
                    all.insert(entries[i].1);
                }
                assert(entries@.take(n as int) =~= entries@);
                all
            },
            Some(jg) => {
                let ghost jv = names_view(jg@);
                let filter_info = JGFilterInfo::new(jg.clone());
                proof {
                    assert(filter_info.transformed_names() =~= filter_info.names().map_values(|m: Seq<char>| spec_verilator_like(m)));
                }
                let filter = SignalFilter::JGFilter(filter_info);
                let mut allowed: HashSet<u64> = HashSet::new();
                let mut result: HashSet<u64> = HashSet::new();
                for i in 0..n
                    invariant
                        n == entries@.len(),
                        jv == names_view(jg@),
                        filter == SignalFilter::JGFilter(filter_info),
                        filter_info.names() == first_occurrences(jv),
                        filter_info.transformed_names() == first_occurrences(jv).map_values(|m: Seq<char>| spec_verilator_like(m)),
                        allowed@ == jg_allowed(entries@.take(i as int), jv),
                        result@ == allowed@,
                {
                    proof {
                        assert(entries@.take(i + 1).drop_last() =~= entries@.take(i as int));
                        assert(entries@.take(i + 1).last() == entries@[i as int]);
                    }
                    if filter.check_signal(entries[i].0.as_str(), &entries[i].1) {
                        allowed.insert(entries[i].1);
                        result.insert(entries[i].1);
                    }
                }
                assert(entries@.take(n as int) =~= entries@);
                match &self.cond_map {
                    None => {
                        assert(allowed@ =~= jg_allowed(entries@, jv).union(Set::<u64>::empty()));
                        allowed
                    },
                    Some(conds) => {
                        let m = conds.len();
                        assert(result@ =~= jg_allowed(entries@, jv).union(cond_codes(conds@.take(0), entries@, jg_allowed(entries@, jv))));
                        for c in 0..m
                            invariant
                                m == conds@.len(),
                                allowed@ == jg_allowed(entries@, jv),
                                result@ == jg_allowed(entries@, jv).union(cond_codes(conds@.take(c as int), entries@, allowed@)),
                        {
                            proof {
                                assert(conds@.take(c + 1).drop_last() =~= conds@.take(c as int));
                                assert(conds@.take(c + 1).last() == conds@[c as int]);
                            }
                            let mut vars: Vec<String> = Vec::new();
                            conds[c].1.collect_signals_from_expr(&mut vars);
                            assert(names_view(vars@) =~= expr_vars(conds@[c as int].1));
                            if vars_have_allowed_codes(&vars, entries, &allowed) {
                                match first_id(entries, conds[c].0.as_str()) {
                                    Some(code) => {
                                        let ghost before = result@;
                                        result.insert(code);
                                        assert(result@ =~= jg_allowed(entries@, jv).union(cond_codes(conds@.take(c + 1), entries@, allowed@)));
                                    },
                                    None => {
                                        assert(result@ =~= jg_allowed(entries@, jv).union(cond_codes(conds@.take(c + 1), entries@, allowed@)));
                                    },
                                }
                            } else {
                                assert(result@ =~= jg_allowed(entries@, jv).union(cond_codes(conds@.take(c + 1), entries@, allowed@)));
                            }
                        }
                        assert(conds@.take(m as int) =~= conds@);
                        result
                    },
                }
            },
        }
    }
}

/// Every name has an id, and each of those ids is in `allowed`.
fn vars_have_allowed_codes(vars: &Vec<String>, entries: &Vec<(String, u64)>, allowed: &HashSet<u64>) -> (r: bool)
    ensures
        r == names_have_allowed_codes(names_view(vars@), entries@, allowed@),
{
    let n = vars.len();
    for k in 0..n
        invariant
            n == vars@.len(),
            forall|j: int| 0 <= j < k ==> code_allowed(#[trigger] names_view(vars@)[j], entries@, allowed@),
    {
        let found = first_id(entries, vars[k].as_str());
        match found {
            None => {
                assert(!code_allowed(names_view(vars@)[k as int], entries@, allowed@));
                return false;
            },
            Some(code) => {
                if !allowed.contains(&code) {
                    assert(!code_allowed(names_view(vars@)[k as int], entries@, allowed@));
                    return false;
                }
                assert(code_allowed(names_view(vars@)[k as int], entries@, allowed@));
            },
        }
    }
    true
}

/// Every id of the entries.
pub open spec fn all_codes(entries: Seq<(String, u64)>) -> Set<u64>
    decreases entries.len(),
{
    if entries.len() == 0 { Set::empty() } else { all_codes(entries.drop_last()).insert(entries.last().1) }
}

/// The formal tool knows the simulator name `name` (through the matching
/// of `jg_match`, against the distinct names and their simulator-style forms).
pub open spec fn jg_accepts(jg: Seq<Seq<char>>, name: Seq<char>) -> bool {
    let u = first_occurrences(jg);
    jg_match(name, u, Some(u.map_values(|m: Seq<char>| spec_verilator_like(m)))) is Some
}

/// The ids of the entries whose name the formal tool knows.
pub open spec fn jg_allowed(entries: Seq<(String, u64)>, jg: Seq<Seq<char>>) -> Set<u64>
    decreases entries.len(),
{
    if entries.len() == 0 {
        Set::empty()
    } else {
        let prev = jg_allowed(entries.drop_last(), jg);
        if jg_accepts(jg, entries.last().0@) { prev.insert(entries.last().1) } else { prev }
    }
}

/// The name has an id, and that id is allowed.
pub open spec fn code_allowed(name: Seq<char>, entries: Seq<(String, u64)>, allowed: Set<u64>) -> bool {
    first_id_of(entries, name) is Some && allowed.contains(first_id_of(entries, name)->0)
}

pub open spec fn names_have_allowed_codes(names: Seq<Seq<char>>, entries: Seq<(String, u64)>, allowed: Set<u64>) -> bool {
    forall|j: int| 0 <= j < names.len() ==> code_allowed(#[trigger] names[j], entries, allowed)
}

/// The ids of the inserted signals whose expression reads only allowed ids.
pub open spec fn cond_codes(conds: Seq<(String, Expr)>, entries: Seq<(String, u64)>, allowed: Set<u64>) -> Set<u64>
    decreases conds.len(),
{
    if conds.len() == 0 {
        Set::empty()
    } else {
        let prev = cond_codes(conds.drop_last(), entries, allowed);
        let (sig, e) = conds.last();
        if names_have_allowed_codes(expr_vars(e), entries, allowed) && first_id_of(entries, sig@) is Some {
            prev.insert(first_id_of(entries, sig@)->0)
        } else {
            prev
        }
    }
}

/// The indices a search may use (see `create_allowed_signal_list_from_name_to_code_map`).
pub open spec fn allowed_codes(
    jg_signals: Option<Vec<String>>,
    cond_map: Option<Vec<(String, Expr)>>,
    entries: Seq<(String, u64)>,
) -> Set<u64> {
    match jg_signals {
        None => all_codes(entries),
        Some(jg) => {
            let base = jg_allowed(entries, names_view(jg@));
            match cond_map {
                None => base,
                Some(c) => base.union(cond_codes(c@, entries, base)),
            }
        },
    }
}

// ----------------------------------------------------------------------------
// Lists of signal names in text
// ----------------------------------------------------------------------------

/// A character of the Unicode `White_Space` property, which `str::trim` strips.
pub open spec fn is_white_space(c: char) -> bool {
    ('\u{9}' <= c && c <= '\u{d}') || c == ' ' || c == '\u{85}' || c == '\u{a0}' || c == '\u{1680}'
        || ('\u{2000}' <= c && c <= '\u{200a}') || c == '\u{2028}' || c == '\u{2029}' || c == '\u{202f}'
        || c == '\u{205f}' || c == '\u{3000}'
}

/// The text without its leading white space.
pub open spec fn trim_start_of(s: Seq<char>) -> Seq<char>
    decreases s.len(),
{
    if s.len() > 0 && is_white_space(s[0]) { trim_start_of(s.drop_first()) } else { s }
}

/// The text without its trailing white space.
pub open spec fn trim_end_of(s: Seq<char>) -> Seq<char>
    decreases s.len(),
{
    if s.len() > 0 && is_white_space(s.last()) { trim_end_of(s.drop_last()) } else { s }
}

/// What `str::trim` returns for a text: the text without its leading and
/// trailing white space.
pub open spec fn trimmed(s: Seq<char>) -> Seq<char> {
    trim_end_of(trim_start_of(s))
}

fn white_space(c: char) -> (r: bool)
    ensures
        r == is_white_space(c),
{
    ('\u{9}' <= c && c <= '\u{d}') || c == ' ' || c == '\u{85}' || c == '\u{a0}' || c == '\u{1680}'
        || ('\u{2000}' <= c && c <= '\u{200a}') || c == '\u{2028}' || c == '\u{2029}' || c == '\u{202f}'
        || c == '\u{205f}' || c == '\u{3000}'
}

/// The text without its leading and trailing white space.
fn trim_text(s: &str) -> (r: String)
    ensures
        r@ == trimmed(s@),
{
    let v = chars_of(s);
    let n = v.len();
    let mut i: usize = 0;
    assert(v@.subrange(0, n as int) =~= v@);
    while i < n && white_space(v[i])
        invariant
            i <= n,
            n == v@.len(),
            trim_start_of(v@) == trim_start_of(v@.subrange(i as int, n as int)),
        decreases n - i,
    {
        assert(v@.subrange(i as int, n as int).drop_first() =~= v@.subrange(i + 1, n as int));
        i = i + 1;
    }
    let mut j: usize = n;
    assert(trim_start_of(v@.subrange(i as int, n as int)) == v@.subrange(i as int, n as int));
    while j > i && white_space(v[j - 1])
        invariant
            i <= j <= n,
            n == v@.len(),
            trim_end_of(v@.subrange(i as int, n as int)) == trim_end_of(v@.subrange(i as int, j as int)),
        decreases j - i,
    {
        assert(v@.subrange(i as int, j as int).drop_last() =~= v@.subrange(i as int, j - 1));
        j = j - 1;
    }
    assert(trim_end_of(v@.subrange(i as int, j as int)) == v@.subrange(i as int, j as int));
    let mut out: Vec<char> = Vec::new();
    let mut k: usize = i;
    while k < j
        invariant
            i <= k <= j <= n,
            n == v@.len(),
            out@ == v@.subrange(i as int, k as int),
        decreases j - k,
    {
        out.push(v[k]);
        assert(out@ =~= v@.subrange(i as int, k + 1));
        k = k + 1;
    }
    string_from_chars(&out)
}

/// The trimmed lines that are not empty, in order.
pub open spec fn nonempty_trimmed(lines: Seq<Seq<char>>) -> Seq<Seq<char>>
    decreases lines.len(),
{
    if lines.len() == 0 {
        Seq::empty()
    } else {
        let prev = nonempty_trimmed(lines.drop_last());
        let t = trimmed(lines.last());
        if t.len() > 0 { prev.push(t) } else { prev }
    }
}

/// The signal names of a text with one name per line: each line trimmed,
/// empty lines left out.
pub fn signal_list_from_text(text: &str) -> (r: Vec<String>)
    ensures
        names_view(r@) == nonempty_trimmed(split_on(text@, '\n')),
{
    let chars = chars_of(text);
    let parts = split_chars(&chars, '\n');
    let ghost lines = split_on(text@, '\n');
    let n = parts.len();
    let mut r: Vec<String> = Vec::new();
    for i in 0..n
        invariant
            n == parts@.len(),
            parts@.map_values(|p: Vec<char>| p@) == lines,
            names_view(r@) == nonempty_trimmed(lines.take(i as int)),
    {
        let line = string_from_chars(&parts[i]);
        let t = trim_text(line.as_str());
        proof {
            assert(lines.take(i + 1).drop_last() =~= lines.take(i as int));
            assert(lines.take(i + 1).last() == parts@[i as int]@);
        }
        if t.as_str().unicode_len() > 0 {
            let ghost r0 = r@;
            r.push(t);
            assert(names_view(r@) =~= names_view(r0).push(trimmed(parts@[i as int]@)));
        }
    }
    assert(lines.take(n as int) =~= lines);
    r
}

} // verus!
