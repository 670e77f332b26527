//! Decision trees over predicates, their text forms, and the conjunctions
//! read off their paths.

use vstd::prelude::*;
use vstd::string::*;
use crate::predicates::{BasePredicate, FormulaView, Invariant, spec_pred_text, spec_pred_inverse,
    spec_pred_signal_names, preds_contain, preds_view, names_view, no_equal_pair, extend_unique_names};

verus! {

/// A binary tree that splits on a predicate at each inner node.
#[derive(Debug)]
pub struct DecisionTree {
    pub split_predicate: Option<BasePredicate>,
    pub true_branch: Option<Box<DecisionTree>>,
    pub false_branch: Option<Box<DecisionTree>>,
}

/// The text of `to_logic_formula`: each split `p` with branches `t` and `f`
/// reads `(p AND t) OR (NOT (p AND f))`, a missing branch reading `true` and
/// `false`.
pub open spec fn logic_text(t: DecisionTree) -> Seq<char>
    decreases t,
{
    match t.split_predicate {
        Some(p) => {
            let tt = match t.true_branch {
                Some(b) => logic_text(*b),
                None => "true"@,
            };
            let ff = match t.false_branch {
                Some(b) => logic_text(*b),
                None => "false"@,
            };
            "("@ + spec_pred_text(p@) + " AND "@ + tt + ") OR (NOT ("@ + spec_pred_text(p@) + " AND "@ + ff + "))"@
        },
        None => "true"@,
    }
}

/// The text of `decision_tree_to_logic_formula`: `p && (t || f)`, with the
/// parts of missing branches left out.
pub open spec fn formula_text(t: DecisionTree) -> Seq<char>
    decreases t,
{
    match t.split_predicate {
        Some(p) => {
            if t.true_branch.is_some() || t.false_branch.is_some() {
                let tt = match t.true_branch {
                    Some(b) => formula_text(*b),
                    None => ""@,
                };
                let ff = match t.false_branch {
                    Some(b) => " || "@ + formula_text(*b),
                    None => ""@,
                };
                spec_pred_text(p@) + " && ("@ + tt + ff + ")"@
            } else {
                spec_pred_text(p@)
            }
        },
        None => "true"@,
    }
}

pub open spec fn formula_branch(b: Option<Box<DecisionTree>>) -> Seq<char> {
    match b {
        Some(b) => formula_text(*b),
        None => ""@,
    }
}

pub open spec fn formula_else_branch(b: Option<Box<DecisionTree>>) -> Seq<char> {
    match b {
        Some(b) => " || "@ + formula_text(*b),
        None => ""@,
    }
}

/// The text of `format_tree_to_formula`.
pub open spec fn format_text(t: DecisionTree) -> Seq<char>
    decreases t,
{
    let head = match t.split_predicate {
        Some(p) => spec_pred_text(p@) + " && ("@,
        None => ""@,
    };
    let tt = match t.true_branch {
        Some(b) => format_text(*b),
        None => ""@,
    };
    let ff = match t.false_branch {
        Some(b) => " || "@ + format_text(*b),
        None => ""@,
    };
    head + tt + ff + ")"@
}

pub open spec fn spaces(n: nat) -> Seq<char> {
    Seq::new(n, |i: int| ' ')
}

/// The line of a node: its predicate, or `None`.
pub open spec fn display_head(p: Option<BasePredicate>, indent: nat) -> Seq<char> {
    match p {
        Some(p) => spaces(indent) + "Predicate: "@ + spec_pred_text(p@) + "\n"@,
        None => spaces(indent) + "Predicate: None\n"@,
    }
}

/// The indented listing of a tree, one line per predicate and branch.
pub open spec fn display_text(t: DecisionTree, indent: nat) -> Seq<char>
    decreases t,
{
    let ind = spaces(indent);
    let head = display_head(t.split_predicate, indent);
    let tt = match t.true_branch {
        Some(b) => ind + "True Branch:\n"@ + display_text(*b, indent + 4),
        None => ""@,
    };
    let ff = match t.false_branch {
        Some(b) => ind + "False Branch:\n"@ + display_text(*b, indent + 4),
        None => ""@,
    };
    head + tt + ff
}

/// The number of levels of a tree.
pub open spec fn tree_height(t: DecisionTree) -> nat
    decreases t,
{
    let th = match t.true_branch {
        Some(b) => tree_height(*b),
        None => 0,
    };
    let fh = match t.false_branch {
        Some(b) => tree_height(*b),
        None => 0,
    };
    1 + if th >= fh { th } else { fh }
}

/// The split predicates of a tree, each followed by its inverse, in preorder.
pub open spec fn split_preds(t: DecisionTree) -> Seq<FormulaView>
    decreases t,
{
    let head = match t.split_predicate {
        Some(p) => seq![p@, spec_pred_inverse(p@)],
        None => Seq::empty(),
    };
    let tt = match t.true_branch {
        Some(b) => split_preds(*b),
        None => Seq::empty(),
    };
    let ff = match t.false_branch {
        Some(b) => split_preds(*b),
        None => Seq::empty(),
    };
    head + tt + ff
}

/// The names of the signals the split predicates read, in preorder.
pub open spec fn split_signal_names(t: DecisionTree) -> Seq<Seq<char>>
    decreases t,
{
    let head = match t.split_predicate {
        Some(p) => spec_pred_signal_names(p@),
        None => Seq::empty(),
    };
    let tt = match t.true_branch {
        Some(b) => split_signal_names(*b),
        None => Seq::empty(),
    };
    let ff = match t.false_branch {
        Some(b) => split_signal_names(*b),
        None => Seq::empty(),
    };
    head + tt + ff
}

/// Adds the predicates of `s` one by one to `acc`, each unless an equal one is there.
pub open spec fn add_unique(acc: Seq<FormulaView>, s: Seq<FormulaView>) -> Seq<FormulaView>
    decreases s.len(),
{
    if s.len() == 0 {
        acc
    } else {
        let next = if preds_contain(acc, s[0]) { acc } else { acc.push(s[0]) };
        add_unique(next, s.drop_first())
    }
}

proof fn lemma_add_unique_concat(acc: Seq<FormulaView>, a: Seq<FormulaView>, b: Seq<FormulaView>)
    ensures
        add_unique(acc, a + b) == add_unique(add_unique(acc, a), b),
    decreases a.len(),
{
    if a.len() == 0 {
        assert(a + b =~= b);
    } else {
        let next = if preds_contain(acc, a[0]) { acc } else { acc.push(a[0]) };
        assert((a + b).drop_first() =~= a.drop_first() + b);
        assert((a + b)[0] == a[0]);
        lemma_add_unique_concat(next, a.drop_first(), b);
    }
}

/// The conjunctions read off the paths of a tree, leftmost path first. On
/// each path the split predicate comes first for the true branch and its
/// inverse last for the false branch; a leaf closes the path.
pub open spec fn path_conjunctions(t: DecisionTree, current: Option<Seq<FormulaView>>) -> Seq<Seq<FormulaView>>
    decreases t,
{
    match t.split_predicate {
        None => seq![current.unwrap()],
        Some(p) => {
            let lhs = match current {
                Some(c) => seq![p@] + c,
                None => seq![p@],
            };
            let rhs = match current {
                Some(c) => c.push(spec_pred_inverse(p@)),
                None => seq![spec_pred_inverse(p@)],
            };
            let tt = match t.true_branch {
                Some(b) => path_conjunctions(*b, Some(lhs)),
                None => Seq::empty(),
            };
            let ff = match t.false_branch {
                Some(b) => path_conjunctions(*b, Some(rhs)),
                None => Seq::empty(),
            };
            tt + ff
        },
    }
}

/// Reading off the paths never merges two conjunctions that hold equal
/// predicates, and a leaf is never reached without a conjunction.
pub open spec fn paths_readable(t: DecisionTree, current: Option<Seq<FormulaView>>) -> bool
    decreases t,
{
    match t.split_predicate {
        None => current.is_some(),
        Some(p) => {
            let lhs = match current {
                Some(c) => seq![p@] + c,
                None => seq![p@],
            };
            let rhs = match current {
                Some(c) => c.push(spec_pred_inverse(p@)),
                None => seq![spec_pred_inverse(p@)],
            };
            &&& (current.is_some() ==> no_equal_pair(lhs))
            &&& match t.true_branch {
                Some(b) => paths_readable(*b, Some(lhs)),
                None => true,
            }
            &&& match t.false_branch {
                Some(b) => paths_readable(*b, Some(rhs)),
                None => true,
            }
        },
    }
}

pub open spec fn head_preds(p: Option<BasePredicate>) -> Seq<FormulaView> {
    match p {
        Some(p) => seq![p@, spec_pred_inverse(p@)],
        None => Seq::empty(),
    }
}

pub open spec fn branch_preds(b: Option<Box<DecisionTree>>) -> Seq<FormulaView> {
    match b {
        Some(b) => split_preds(*b),
        None => Seq::empty(),
    }
}

pub open spec fn head_names(p: Option<BasePredicate>) -> Seq<Seq<char>> {
    match p {
        Some(p) => spec_pred_signal_names(p@),
        None => Seq::empty(),
    }
}

pub open spec fn branch_names(b: Option<Box<DecisionTree>>) -> Seq<Seq<char>> {
    match b {
        Some(b) => split_signal_names(*b),
        None => Seq::empty(),
    }
}

pub open spec fn branch_paths(b: Option<Box<DecisionTree>>, current: Seq<FormulaView>) -> Seq<Seq<FormulaView>> {
    match b {
        Some(b) => path_conjunctions(*b, Some(current)),
        None => Seq::empty(),
    }
}

pub open spec fn opt_invariant_view(o: Option<&Invariant>) -> Option<Seq<FormulaView>> {
    match o {
        Some(i) => Some(i@),
        None => None,
    }
}

pub open spec fn invariants_seq_view(v: Seq<Invariant>) -> Seq<Seq<FormulaView>> {
    v.map_values(|i: Invariant| i@)
}

/// Adds `p` to `v` unless an equal predicate is there.
fn insert_unique(v: &mut Vec<BasePredicate>, p: BasePredicate)
    ensures
        preds_view(final(v)@) == add_unique(preds_view(old(v)@), seq![p@]),
{
    let n = v.len();
    let ghost acc = preds_view(v@);
    proof {
        reveal_with_fuel(add_unique, 2);
    }
    assert(seq![p@].drop_first() =~= Seq::<FormulaView>::empty());
    for i in 0..n
        invariant
            n == v@.len(),
            v@ == old(v)@,
            acc == preds_view(v@),
            forall|k: int| 0 <= k < i ==> !crate::predicates::pred_eq(#[trigger] acc[k], p@),
    {
        if v[i] == p {
            assert(acc[i as int] == v@[i as int]@);
            assert(crate::predicates::pred_eq(acc[i as int], p@));
            assert(preds_contain(acc, p@));
            assert(seq![p@][0] == p@);
            assert(add_unique(acc, seq![p@]) == add_unique(acc, seq![p@].drop_first()));
            assert(add_unique(acc, seq![p@]) == acc);
            return;
        }
    }
    v.push(p);
    assert(preds_view(v@) =~= acc.push(p@));
}

fn push_str(s: &mut String, t: &str)
    ensures
        final(s)@ == old(s)@ + t@,
{
    s.append(t);
}

fn spaces_text(n: usize) -> (r: String)
    ensures
        r@ == spaces(n as nat),
{
    let mut r = String::from_str("");
    proof {
        reveal_strlit("");
        reveal_strlit(" ");
    }
    assert(r@ =~= spaces(0));
    for i in 0..n
        invariant
            r@ == spaces(i as nat),
            " "@ == seq![' '],
    {
        r.append(" ");
        assert(r@ =~= spaces((i + 1) as nat));
    }
    r
}

impl DecisionTree {
    pub fn to_logic_formula(&self) -> (r: String)
        ensures
            r@ == logic_text(*self),
        decreases self,
    {
        match &self.split_predicate {
            Some(predicate) => {
                let true_formula = match &self.true_branch {
                    Some(branch) => branch.to_logic_formula(),
                    None => String::from_str("true"),
                };
                let false_formula = match &self.false_branch {
                    Some(branch) => branch.to_logic_formula(),
                    None => String::from_str("false"),
                };
                let p = predicate.to_string();
                let mut s = String::from_str("(");
                push_str(&mut s, p.as_str());
                push_str(&mut s, " AND ");
                push_str(&mut s, true_formula.as_str());
                push_str(&mut s, ") OR (NOT (");
                push_str(&mut s, p.as_str());
                push_str(&mut s, " AND ");
                push_str(&mut s, false_formula.as_str());
                push_str(&mut s, "))");
                s
            },
            None => String::from_str("true"),
        }
    }

    pub fn new() -> (r: Self)
        ensures
            r.split_predicate.is_none(),
            r.true_branch.is_none(),
            r.false_branch.is_none(),
    {
        DecisionTree { split_predicate: None, true_branch: None, false_branch: None }
    }

    pub fn add_branches(&mut self, true_branch: DecisionTree, false_branch: DecisionTree)
        ensures
            final(self).split_predicate == old(self).split_predicate,
            final(self).true_branch == Some(Box::new(true_branch)),
            final(self).false_branch == Some(Box::new(false_branch)),
    {
        self.true_branch = Some(Box::new(true_branch));
        self.false_branch = Some(Box::new(false_branch));
    }

    /// Adds each split predicate and its inverse, in preorder, to
    /// `used_predicates` unless an equal predicate is already there.
    pub fn get_used_predicate(&self, used_predicates: &mut Vec<BasePredicate>)
        ensures
            preds_view(final(used_predicates)@) == add_unique(preds_view(old(used_predicates)@), split_preds(*self)),
        decreases self,
    {
        let ghost head = head_preds(self.split_predicate);
        let ghost tt = branch_preds(self.true_branch);
        let ghost ff = branch_preds(self.false_branch);
        let ghost start = preds_view(used_predicates@);
        if let Some(predicate) = &self.split_predicate {
            insert_unique(used_predicates, predicate.duplicate());
            let ghost mid = preds_view(used_predicates@);
            insert_unique(used_predicates, predicate.get_inverse());
            proof {
                lemma_add_unique_concat(start, seq![predicate@], seq![spec_pred_inverse(predicate@)]);
                assert(seq![predicate@] + seq![spec_pred_inverse(predicate@)] =~= head);
            }
        } else {
            assert(add_unique(start, head) == start);
        }
        let ghost after_head = preds_view(used_predicates@);
        assert(after_head == add_unique(start, head));
        if let Some(branch) = &self.true_branch {
            branch.get_used_predicate(used_predicates);
        } else {
            assert(add_unique(after_head, tt) == after_head);
        }
        let ghost after_true = preds_view(used_predicates@);
        assert(after_true == add_unique(after_head, tt));
        if let Some(branch) = &self.false_branch {
            branch.get_used_predicate(used_predicates);
        } else {
            assert(add_unique(after_true, ff) == after_true);
        }
        proof {
            lemma_add_unique_concat(start, head, tt);
            lemma_add_unique_concat(start, head + tt, ff);
            assert(split_preds(*self) == head + tt + ff);
        }
    }

    /// Adds the names of the signals the split predicates read to
    /// `used_signals`, as a set.
    pub fn get_used_signals(&self, used_signals: &mut Vec<String>)
        ensures
            names_view(final(used_signals)@).to_set()
                == names_view(old(used_signals)@).to_set().union(split_signal_names(*self).to_set()),
            names_view(old(used_signals)@).no_duplicates() ==> names_view(final(used_signals)@).no_duplicates(),
        decreases self,
    {
        let ghost head = head_names(self.split_predicate);
        let ghost tt = branch_names(self.true_branch);
        let ghost ff = branch_names(self.false_branch);
        let ghost start = names_view(used_signals@).to_set();
        if let Some(predicate) = &self.split_predicate {
            let names = predicate.get_signal_names();
            extend_unique_names(used_signals, &names);
        }
        assert(names_view(used_signals@).to_set() == start.union(head.to_set()));
        if let Some(branch) = &self.true_branch {
            branch.get_used_signals(used_signals);
        }
        assert(names_view(used_signals@).to_set() == start.union(head.to_set()).union(tt.to_set()));
        if let Some(branch) = &self.false_branch {
            branch.get_used_signals(used_signals);
        }
        proof {
            vstd::seq_lib::seq_to_set_distributes_over_add(head, tt);
            vstd::seq_lib::seq_to_set_distributes_over_add(head + tt, ff);
            assert(split_signal_names(*self) == head + tt + ff);
            assert(names_view(used_signals@).to_set() =~= start.union(split_signal_names(*self).to_set()));
        }
    }

    /// The indented listing of the tree, as its `Display` form prints it.
    pub fn to_string(&self) -> (r: String)
        requires
            4 * tree_height(*self) <= usize::MAX,
        ensures
            r@ == display_text(*self, 0),
    {
        format_tree(self, 0)
    }
}

fn format_tree(tree: &DecisionTree, indent: usize) -> (r: String)
    requires
        indent + 4 * tree_height(*tree) <= usize::MAX,
    ensures
        r@ == display_text(*tree, indent as nat),
    decreases tree,
{
    let indentation = spaces_text(indent);
    let mut s = indentation.clone();
    proof {
        reveal_strlit("");
    }
    match &tree.split_predicate {
        Some(predicate) => {
            push_str(&mut s, "Predicate: ");
            let p = predicate.to_string();
            push_str(&mut s, p.as_str());
            push_str(&mut s, "\n");
        },
        None => {
            push_str(&mut s, "Predicate: None\n");
        },
    }
    assert(s@ =~= display_head(tree.split_predicate, indent as nat));
    if let Some(branch) = &tree.true_branch {
        push_str(&mut s, indentation.as_str());
        push_str(&mut s, "True Branch:\n");
        let b = format_tree(branch, indent + 4);
        push_str(&mut s, b.as_str());
    }
    let ghost after_true = s@;
    if let Some(branch) = &tree.false_branch {
        push_str(&mut s, indentation.as_str());
        push_str(&mut s, "False Branch:\n");
        let b = format_tree(branch, indent + 4);
        push_str(&mut s, b.as_str());
    }
    proof {
        assert(s@ =~= display_text(*tree, indent as nat));
    }
    s
}

pub fn decision_tree_to_logic_formula(tree: &DecisionTree) -> (r: String)
    ensures
        r@ == formula_text(*tree),
    decreases tree,
{
    if let Some(predicate) = &tree.split_predicate {
        let mut formula = predicate.to_string();
        if tree.true_branch.is_some() || tree.false_branch.is_some() {
            push_str(&mut formula, " && (");
            proof {
                reveal_strlit("");
            }
            let ghost g0 = formula@;
            if let Some(true_branch) = &tree.true_branch {
                let t = decision_tree_to_logic_formula(true_branch);
                push_str(&mut formula, t.as_str());
            }
            assert(formula@ =~= g0 + formula_branch(tree.true_branch));
            let ghost g1 = formula@;
            if let Some(false_branch) = &tree.false_branch {
                push_str(&mut formula, " || ");
                let f = decision_tree_to_logic_formula(false_branch);
                push_str(&mut formula, f.as_str());
            }
            assert(formula@ =~= g1 + formula_else_branch(tree.false_branch));
            push_str(&mut formula, ")");
            assert(formula_text(*tree) == spec_pred_text(predicate@) + " && ("@
                + formula_branch(tree.true_branch) + formula_else_branch(tree.false_branch) + ")"@);
            assert(formula@ =~= formula_text(*tree));
        }
        formula
    } else {
        String::from_str("true")
    }
}

pub fn format_tree_to_formula(tree: &DecisionTree) -> (r: String)
    ensures
        r@ == format_text(*tree),
    decreases tree,
{
    let mut formula = String::from_str("");
    proof {
        reveal_strlit("");
    }
    if let Some(predicate) = &tree.split_predicate {
        let p = predicate.to_string();
        push_str(&mut formula, p.as_str());
        push_str(&mut formula, " && (");
    }
    if let Some(true_branch) = &tree.true_branch {
        let t = format_tree_to_formula(true_branch);
        push_str(&mut formula, t.as_str());
    }
    if let Some(false_branch) = &tree.false_branch {
        push_str(&mut formula, " || ");
        let f = format_tree_to_formula(false_branch);
        push_str(&mut formula, f.as_str());
    }
    push_str(&mut formula, ")");
    formula
}

/// Appends to `invariant_collection` the conjunction of every path of the
/// tree, leftmost path first, each path starting from `current_invariant`.
pub fn decision_tree_to_invariant_collection(
    tree: &DecisionTree,
    invariant_collection: &mut Vec<Invariant>,
    current_invariant: Option<&Invariant>,
)
    requires
        paths_readable(*tree, opt_invariant_view(current_invariant)),
    ensures
        invariants_seq_view(final(invariant_collection)@) == invariants_seq_view(old(invariant_collection)@)
            + path_conjunctions(*tree, opt_invariant_view(current_invariant)),
    decreases tree,
{
    let ghost start = invariants_seq_view(invariant_collection@);
    match &tree.split_predicate {
        None => {
            let c = current_invariant.unwrap().duplicate();
            invariant_collection.push(c);
            assert(invariants_seq_view(invariant_collection@) =~= start + path_conjunctions(*tree, opt_invariant_view(current_invariant)));
        },
        Some(split) => {
            let mut split_only = Invariant::new();
            split_only.add_predicate(split.duplicate());
            let lhs_invariant = match current_invariant {
                Some(branch_invariant) => split_only.merge_invariant(branch_invariant),
                None => split_only.duplicate(),
            };
            let rhs_invariant = match current_invariant {
                Some(branch_invariant) => {
                    let mut new_invariant = branch_invariant.duplicate();
                    new_invariant.add_predicate(split.get_inverse());
                    new_invariant
                },
                None => {
                    let mut new_invariant = Invariant::new();
                    new_invariant.add_predicate(split.get_inverse());
                    new_invariant
                },
            };
            assert(split_only@ =~= seq![split@]);
            assert(rhs_invariant@ =~= match opt_invariant_view(current_invariant) {
                Some(c) => c.push(spec_pred_inverse(split@)),
                None => seq![spec_pred_inverse(split@)],
            });
            let ghost tt = branch_paths(tree.true_branch, lhs_invariant@);
            let ghost ff = branch_paths(tree.false_branch, rhs_invariant@);
            if let Some(true_branch) = &tree.true_branch {
                decision_tree_to_invariant_collection(true_branch, invariant_collection, Some(&lhs_invariant));
            }
            assert(invariants_seq_view(invariant_collection@) =~= start + tt);
            if let Some(false_branch) = &tree.false_branch {
                decision_tree_to_invariant_collection(false_branch, invariant_collection, Some(&rhs_invariant));
            }
            assert(invariants_seq_view(invariant_collection@) =~= start + tt + ff);
            assert(path_conjunctions(*tree, opt_invariant_view(current_invariant)) == tt + ff);
        },
    }
}

} // verus!
