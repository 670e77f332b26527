//! Matching of simulator signal names against the hierarchical names of the
//! formal tool, where Verilog escaped identifiers (a backslash up to a space)
//! may hold dots.

use vstd::prelude::*;
use vstd::string::*;
use crate::text::chars_of;
use crate::predicates::{names_view, texts_of};
use std::collections::HashMap;
use crate::samples::{first_id, first_id_of};
use crate::data_types::signal_remap_info::{contains_name, SignalRemappingInfo, Expr, expr_vars, expr_text,
    var_resolvable, expr_resolvable, lemma_resolvable_if_vars_resolvable};
use crate::predicates::{Invariant, SeparatorFormula, separator_as_disjunction, disjunction_mapping_covers,
    spec_disjunction_jg_text, spec_invariant_jg_text, disj_known_idx};
use std::collections::HashSet;

verus! {

// ----------------------------------------------------------------------------
// Splitting on a separator
// ----------------------------------------------------------------------------

/// `s` cut at every `sep`, as `str::split` with a character cuts it: one
/// more part than separators, empty parts kept.
pub open spec fn split_on(s: Seq<char>, sep: char) -> Seq<Seq<char>>
    decreases s.len(),
{
    if s.len() == 0 {
        seq![Seq::empty()]
    } else {
        let prev = split_on(s.drop_last(), sep);
        if s.last() == sep {
            prev.push(Seq::empty())
        } else {
            prev.update(prev.len() - 1, prev.last().push(s.last()))
        }
    }
}

proof fn lemma_split_on_nonempty(s: Seq<char>, sep: char)
    ensures
        split_on(s, sep).len() >= 1,
        forall|i: int| 0 <= i < split_on(s, sep).len() ==> (#[trigger] split_on(s, sep)[i]).len() <= s.len(),
    decreases s.len(),
{
    if s.len() > 0 {
        lemma_split_on_nonempty(s.drop_last(), sep);
    }
}

/// Cuts a character list at every `sep`.
pub(crate) fn split_chars(v: &Vec<char>, sep: char) -> (r: Vec<Vec<char>>)
    ensures
        r@.map_values(|p: Vec<char>| p@) == split_on(v@, sep),
{
    let mut parts: Vec<Vec<char>> = Vec::new();
    let mut cur: Vec<char> = Vec::new();
    let n = v.len();
    assert(v@.take(0) =~= Seq::<char>::empty());
    for i in 0..n
        invariant
            n == v@.len(),
            parts@.map_values(|p: Vec<char>| p@).push(cur@) == split_on(v@.take(i as int), sep),
    {
        proof {
            assert(v@.take(i + 1).drop_last() =~= v@.take(i as int));
            assert(v@.take(i + 1).last() == v@[i as int]);
        }
        let ghost before = parts@.map_values(|p: Vec<char>| p@).push(cur@);
        if v[i] == sep {
            let done = cur;
            parts.push(done);
            cur = Vec::new();
            assert(parts@.map_values(|p: Vec<char>| p@).push(cur@) =~= before.push(Seq::empty()));
        } else {
            cur.push(v[i]);
            assert(parts@.map_values(|p: Vec<char>| p@).push(cur@) =~= before.update(before.len() - 1, before.last().push(v@[i as int])));
        }
    }
    assert(v@.take(n as int) =~= v@);
    let ghost last = parts@.map_values(|p: Vec<char>| p@).push(cur@);
    parts.push(cur);
    assert(parts@.map_values(|p: Vec<char>| p@) =~= last);
    parts
}

fn chars_eq(a: &Vec<char>, b: &Vec<char>) -> (r: bool)
    ensures
        r == (a@ == b@),
{
    if a.len() != b.len() {
        return false;
    }
    let n = a.len();
    for i in 0..n
        invariant
            n == a@.len(),
            n == b@.len(),
            forall|k: int| 0 <= k < i ==> a@[k] == b@[k],
    {
        if a[i] != b[i] {
            return false;
        }
    }
    assert(a@ =~= b@);
    true
}

/// Appends the characters of `b` to `a`.
fn extend_chars(a: &mut Vec<char>, b: &Vec<char>)
    ensures
        final(a)@ == old(a)@ + b@,
{
    let n = b.len();
    for i in 0..n
        invariant
            n == b@.len(),
            a@ == old(a)@ + b@.take(i as int),
    {
        a.push(b[i]);
        assert(a@ =~= old(a)@ + b@.take(i + 1));
    }
    assert(b@.take(n as int) =~= b@);
}

/// Makes a `String` of the characters with `FromIterator<&char>`.
#[verifier::external_body]
pub(crate) fn string_from_chars(v: &Vec<char>) -> (s: String)
    ensures
        s@ == v@,
{
    v.iter().collect()
}

// ----------------------------------------------------------------------------
// UTF-8 lengths
// ----------------------------------------------------------------------------

/// The number of bytes UTF-8 takes for a character.
pub open spec fn char_utf8_len(c: char) -> nat {
    if (c as u32) < 0x80 { 1 } else if (c as u32) < 0x800 { 2 } else if (c as u32) < 0x10000 { 3 } else { 4 }
}

/// The number of bytes UTF-8 takes for a text, as `str::len` counts it.
pub open spec fn utf8_len(s: Seq<char>) -> nat
    decreases s.len(),
{
    if s.len() == 0 { 0 } else { utf8_len(s.drop_last()) + char_utf8_len(s.last()) }
}

proof fn lemma_utf8_len_bound(s: Seq<char>)
    ensures
        s.len() <= utf8_len(s) <= 4 * s.len(),
    decreases s.len(),
{
    if s.len() > 0 {
        lemma_utf8_len_bound(s.drop_last());
    }
}

proof fn lemma_utf8_len_concat(a: Seq<char>, b: Seq<char>)
    ensures
        utf8_len(a + b) == utf8_len(a) + utf8_len(b),
    decreases b.len(),
{
    if b.len() == 0 {
        assert(a + b =~= a);
    } else {
        lemma_utf8_len_concat(a, b.drop_last());
        assert((a + b).drop_last() =~= a + b.drop_last());
        assert((a + b).last() == b.last());
    }
}

fn utf8_len_of(v: &Vec<char>) -> (r: u128)
    ensures
        r == utf8_len(v@),
        r <= 4 * v@.len(),
{
    let mut total: u128 = 0;
    let n = v.len();
    for i in 0..n
        invariant
            n == v@.len(),
            total == utf8_len(v@.take(i as int)),
            total <= 4 * i,
    {
        proof {
            assert(v@.take(i + 1).drop_last() =~= v@.take(i as int));
            assert(v@.take(i + 1).last() == v@[i as int]);
        }
        let c = v[i] as u32;
        if c < 0x80 {
            total = total + 1;
        } else if c < 0x800 {
            total = total + 2;
        } else if c < 0x10000 {
            total = total + 3;
        } else {
            total = total + 4;
        }
    }
    assert(v@.take(n as int) =~= v@);
    total
}


// ----------------------------------------------------------------------------
// Escaped identifiers
// ----------------------------------------------------------------------------

pub open spec fn starts_with_backslash(p: Seq<char>) -> bool {
    p.len() > 0 && p[0] == '\\'
}

pub open spec fn ends_with_space(p: Seq<char>) -> bool {
    p.len() > 0 && p.last() == ' '
}

/// Joins the tokens from `t` onto `esc`, each after a dot, until `esc` ends
/// with a space or the tokens run out: the text, and the first token left.
pub open spec fn gather_escaped(tokens: Seq<Seq<char>>, t: int, esc: Seq<char>) -> (Seq<char>, int)
    decreases tokens.len() - t,
{
    if ends_with_space(esc) || t < 0 || t >= tokens.len() {
        (esc, t)
    } else {
        gather_escaped(tokens, t + 1, esc.push('.') + tokens[t])
    }
}

pub proof fn lemma_gather_advances(tokens: Seq<Seq<char>>, t: int, esc: Seq<char>)
    ensures
        gather_escaped(tokens, t, esc).1 >= t,
        0 <= t <= tokens.len() ==> gather_escaped(tokens, t, esc).1 <= tokens.len(),
    decreases tokens.len() - t,
{
    if !(ends_with_space(esc) || t < 0 || t >= tokens.len()) {
        lemma_gather_advances(tokens, t + 1, esc.push('.') + tokens[t]);
    }
}

/// The hierarchy parts of a name cut at its dots, where an escaped
/// identifier, from a backslash up to the next space, stays one part with
/// the dots it holds and without that closing space.
pub open spec fn escaped_parts_from(tokens: Seq<Seq<char>>, t: int) -> Seq<Seq<char>>
    decreases tokens.len() - t,
{
    if t < 0 || t >= tokens.len() {
        Seq::empty()
    } else if starts_with_backslash(tokens[t]) {
        proof {
            lemma_gather_advances(tokens, t + 1, tokens[t]);
        }
        let g = gather_escaped(tokens, t + 1, tokens[t]);
        let part = if ends_with_space(g.0) { g.0.drop_last() } else { g.0 };
        seq![part] + escaped_parts_from(tokens, g.1)
    } else {
        seq![tokens[t]] + escaped_parts_from(tokens, t + 1)
    }
}

/// Joins `parts[k..]` with dots onto `combined` while it is shorter, in
/// bytes, than `limit`: the text, and the first part left.
pub open spec fn combine_parts(parts: Seq<Seq<char>>, k: int, combined: Seq<char>, limit: nat) -> (Seq<char>, int)
    decreases parts.len() - k,
{
    if 0 <= k < parts.len() && utf8_len(combined) < limit {
        let next = (if combined.len() == 0 { combined } else { combined.push('.') }) + parts[k];
        combine_parts(parts, k + 1, next, limit)
    } else {
        (combined, k)
    }
}

/// The parts `s[i..]` match the parts `o[j..]`: a plain part matches an
/// equal part; an escaped part matches the parts that, joined with dots,
/// spell it.
pub open spec fn parts_match(s: Seq<Seq<char>>, o: Seq<Seq<char>>, i: int, j: int) -> bool
    decreases o.len() - j,
{
    if 0 <= i < s.len() && 0 <= j < o.len() {
        if starts_with_backslash(o[j]) {
            let target = o[j].drop_first();
            let c = combine_parts(s, i, Seq::empty(), utf8_len(target));
            c.0 == target && parts_match(s, o, c.1, j + 1)
        } else {
            s[i] == o[j] && parts_match(s, o, i + 1, j + 1)
        }
    } else {
        i == s.len() && j == o.len()
    }
}

/// A simulator name matches a formal-tool name part by part.
pub open spec fn signal_names_match(sanitized: Seq<char>, original: Seq<char>) -> bool {
    parts_match(split_on(sanitized, '.'), escaped_parts_from(split_on(original, '.'), 0), 0, 0)
}

pub open spec fn chars_view(v: Seq<Vec<char>>) -> Seq<Seq<char>> {
    v.map_values(|p: Vec<char>| p@)
}

fn copy_chars(v: &Vec<char>) -> (r: Vec<char>)
    ensures
        r@ == v@,
{
    let mut r: Vec<char> = Vec::new();
    extend_chars(&mut r, v);
    assert(r@ =~= v@);
    r
}

/// The hierarchy parts of a name given as its dot-separated tokens.
fn escaped_parts(tokens: &Vec<Vec<char>>) -> (r: Vec<Vec<char>>)
    ensures
        chars_view(r@) == escaped_parts_from(chars_view(tokens@), 0),
{
    let ghost tv = chars_view(tokens@);
    let n = tokens.len();
    let mut parts: Vec<Vec<char>> = Vec::new();
    let mut t: usize = 0;
    assert(chars_view(parts@) + escaped_parts_from(tv, 0) =~= escaped_parts_from(tv, 0));
    while t < n
        invariant
            n == tokens@.len(),
            tv == chars_view(tokens@),
            t <= n,
            escaped_parts_from(tv, 0) == chars_view(parts@) + escaped_parts_from(tv, t as int),
        decreases n - t,
    {
        let tok = &tokens[t];
        assert(tv[t as int] == tok@);
        if tok.len() > 0 && tok[0] == '\\' {
            let mut esc = copy_chars(tok);
            let mut u = t + 1;
            while !(esc.len() > 0 && esc[esc.len() - 1] == ' ') && u < n
                invariant
                    n == tokens@.len(),
                    tv == chars_view(tokens@),
                    t < u <= n,
                    gather_escaped(tv, t + 1, tv[t as int]) == gather_escaped(tv, u as int, esc@),
                decreases n - u,
            {
                assert(tv[u as int] == tokens@[u as int]@);
                esc.push('.');
                extend_chars(&mut esc, &tokens[u]);
                u = u + 1;
            }
            proof {
                lemma_gather_advances(tv, u as int, esc@);
            }
            let ghost g = esc@;
            if esc.len() > 0 && esc[esc.len() - 1] == ' ' {
                esc.pop();
                assert(esc@ =~= g.drop_last());
            }
            let ghost before = chars_view(parts@);
            parts.push(esc);
            assert(chars_view(parts@) =~= before + seq![esc@]);
            t = u;
        } else {
            let ghost before = chars_view(parts@);
            parts.push(copy_chars(tok));
            assert(chars_view(parts@) =~= before + seq![tok@]);
            t = t + 1;
        }
    }
    assert(chars_view(parts@) + Seq::<Seq<char>>::empty() =~= chars_view(parts@));
    parts
}

fn drop_first_char(v: &Vec<char>) -> (r: Vec<char>)
    requires
        v@.len() > 0,
    ensures
        r@ == v@.drop_first(),
{
    let mut r: Vec<char> = Vec::new();
    let n = v.len();
    for i in 1..n
        invariant
            n == v@.len(),
            r@ == v@.subrange(1, i as int),
    {
        r.push(v[i]);
        assert(r@ =~= v@.subrange(1, i + 1));
    }
    assert(r@ =~= v@.drop_first());
    r
}

/// Whether a simulator signal name matches a formal-tool name whose escaped
/// identifiers (from a backslash up to a space) may hold dots.
pub fn match_signal_names(sanitized: &str, original: &str) -> (r: bool)
    ensures
        r == signal_names_match(sanitized@, original@),
{
    let s_chars = chars_of(sanitized);
    let s_parts = split_chars(&s_chars, '.');
    let o_chars = chars_of(original);
    let tokens = split_chars(&o_chars, '.');
    let o_parts = escaped_parts(&tokens);
    let ghost sv = chars_view(s_parts@);
    let ghost ov = chars_view(o_parts@);
    proof {
        lemma_split_on_nonempty(sanitized@, '.');
    }
    let ns = s_parts.len();
    let no = o_parts.len();
    let mut i: usize = 0;
    let mut j: usize = 0;
    while i < ns && j < no
        invariant
            ns == s_parts@.len(),
            no == o_parts@.len(),
            sv == chars_view(s_parts@),
            ov == chars_view(o_parts@),
            i <= ns,
            j <= no,
            signal_names_match(sanitized@, original@) == parts_match(sv, ov, i as int, j as int),
        decreases no - j,
    {
        let o = &o_parts[j];
        assert(ov[j as int] == o@);
        if o.len() > 0 && o[0] == '\\' {
            let target = drop_first_char(o);
            let limit = utf8_len_of(&target);
            let mut combined: Vec<char> = Vec::new();
            let mut comb_bytes: u128 = 0;
            let mut k = i;
            while k < ns && comb_bytes < limit
                invariant
                    ns == s_parts@.len(),
                    sv == chars_view(s_parts@),
                    i <= k <= ns,
                    limit == utf8_len(target@),
                    limit <= 4 * target@.len(),
                    target@.len() <= usize::MAX,
                    comb_bytes == utf8_len(combined@),
                    combine_parts(sv, i as int, Seq::empty(), limit as nat) == combine_parts(sv, k as int, combined@, limit as nat),
                decreases ns - k,
            {
                assert(sv[k as int] == s_parts@[k as int]@);
                let ghost before = combined@;
                if combined.len() > 0 {
                    combined.push('.');
                    proof {
                        lemma_utf8_len_concat(before, seq!['.']);
                        assert(before + seq!['.'] =~= before.push('.'));
                        reveal_with_fuel(utf8_len, 2);
                    }
                    comb_bytes = comb_bytes + 1;
                }
                let ghost mid = combined@;
                let part_bytes = utf8_len_of(&s_parts[k]);
                extend_chars(&mut combined, &s_parts[k]);
                proof {
                    lemma_utf8_len_concat(mid, s_parts@[k as int]@);
                    assert(mid == (if before.len() == 0 { before } else { before.push('.') }));
                }
                comb_bytes = comb_bytes + part_bytes;
                k = k + 1;
            }
            if chars_eq(&combined, &target) {
                i = k;
                j = j + 1;
            } else {
                return false;
            }
        } else {
            assert(sv[i as int] == s_parts@[i as int]@);
            if !chars_eq(&s_parts[i], o) {
                return false;
            }
            i = i + 1;
            j = j + 1;
        }
    }
    i == ns && j == no
}


// ----------------------------------------------------------------------------
// Formal-tool names to simulator names
// ----------------------------------------------------------------------------

/// The state of splitting a formal-tool name: the parts so far, the escaped
/// identifier being read, and whether one is being read.
pub open spec fn jg_split_step(state: (Seq<Seq<char>>, Seq<char>, bool), seg: Seq<char>) -> (Seq<Seq<char>>, Seq<char>, bool) {
    let (parts, cur, in_esc) = state;
    if !in_esc {
        if starts_with_backslash(seg) {
            if ends_with_space(seg) { (parts.push(seg), Seq::empty(), false) } else { (parts, seg, true) }
        } else {
            (parts.push(seg), cur, false)
        }
    } else {
        let joined = cur.push('.') + seg;
        if ends_with_space(seg) { (parts.push(joined), Seq::empty(), false) } else { (parts, joined, true) }
    }
}

pub open spec fn jg_split_state(segs: Seq<Seq<char>>) -> (Seq<Seq<char>>, Seq<char>, bool)
    decreases segs.len(),
{
    if segs.len() == 0 {
        (Seq::empty(), Seq::empty(), false)
    } else {
        jg_split_step(jg_split_state(segs.drop_last()), segs.last())
    }
}

/// The parts of a formal-tool name: dot-separated, except that an escaped
/// identifier, up to the segment that ends with a space, is one part with
/// its dots and its closing space; one still open at the end runs to the end.
pub open spec fn jg_parts(jg: Seq<char>) -> Seq<Seq<char>> {
    let st = jg_split_state(split_on(jg, '.'));
    if st.2 { st.0.push(st.1) } else { st.0 }
}

fn is_escape_start(v: &Vec<char>) -> (r: bool)
    ensures
        r == starts_with_backslash(v@),
{
    v.len() > 0 && v[0] == '\\'
}

fn is_escape_end(v: &Vec<char>) -> (r: bool)
    ensures
        r == ends_with_space(v@),
{
    v.len() > 0 && v[v.len() - 1] == ' '
}

fn split_jg_parts(jg: &str) -> (r: Vec<Vec<char>>)
    ensures
        chars_view(r@) == jg_parts(jg@),
{
    let chars = chars_of(jg);
    let segs = split_chars(&chars, '.');
    let ghost sv = chars_view(segs@);
    let mut parts: Vec<Vec<char>> = Vec::new();
    let mut cur: Vec<char> = Vec::new();
    let mut in_esc = false;
    let n = segs.len();
    assert(sv.take(0) =~= Seq::<Seq<char>>::empty());
    for i in 0..n
        invariant
            n == segs@.len(),
            sv == chars_view(segs@),
            jg_split_state(sv.take(i as int)) == (chars_view(parts@), cur@, in_esc),
    {
        let seg = &segs[i];
        proof {
            assert(sv.take(i + 1).drop_last() =~= sv.take(i as int));
            assert(sv.take(i + 1).last() == seg@);
        }
        let ghost before = chars_view(parts@);
        if !in_esc {
            if is_escape_start(seg) {
                if is_escape_end(seg) {
                    parts.push(copy_chars(seg));
                    cur = Vec::new();
                    assert(chars_view(parts@) =~= before.push(seg@));
                    assert(cur@ =~= Seq::<char>::empty());
                } else {
                    cur = copy_chars(seg);
                    in_esc = true;
                }
            } else {
                parts.push(copy_chars(seg));
                assert(chars_view(parts@) =~= before.push(seg@));
            }
        } else {
            cur.push('.');
            extend_chars(&mut cur, seg);
            if is_escape_end(seg) {
                let done = cur;
                parts.push(done);
                cur = Vec::new();
                in_esc = false;
                assert(cur@ =~= Seq::<char>::empty());
            }
            assert(chars_view(parts@) =~= jg_split_state(sv.take(i + 1)).0);
        }
    }
    assert(sv.take(n as int) =~= sv);
    if in_esc {
        let ghost before = chars_view(parts@);
        parts.push(cur);
        assert(chars_view(parts@) =~= before.push(jg_split_state(sv).1));
    }
    parts
}

/// `p` without one closing space, if it has one.
pub open spec fn strip_closing_space(p: Seq<char>) -> Seq<char> {
    if ends_with_space(p) { p.drop_last() } else { p }
}

/// The simulator-style parts a formal-tool part stands for: an escaped
/// identifier loses its backslash and closing space and is cut at its dots.
pub open spec fn verilator_parts(p: Seq<char>) -> Seq<Seq<char>> {
    if starts_with_backslash(p) { split_on(strip_closing_space(p.drop_first()), '.') } else { seq![p] }
}

pub open spec fn flatten_verilator_parts(parts: Seq<Seq<char>>) -> Seq<Seq<char>>
    decreases parts.len(),
{
    if parts.len() == 0 {
        Seq::empty()
    } else {
        flatten_verilator_parts(parts.drop_last()) + verilator_parts(parts.last())
    }
}

/// The parts joined with dots.
pub open spec fn dot_join(parts: Seq<Seq<char>>) -> Seq<char>
    decreases parts.len(),
{
    if parts.len() == 0 {
        Seq::empty()
    } else if parts.len() == 1 {
        parts[0]
    } else {
        dot_join(parts.drop_last()).push('.') + parts.last()
    }
}

/// The simulator-style name of a formal-tool name.
pub open spec fn spec_verilator_like(jg: Seq<char>) -> Seq<char> {
    dot_join(flatten_verilator_parts(jg_parts(jg)))
}

fn join_with_dots(parts: &Vec<Vec<char>>) -> (r: Vec<char>)
    ensures
        r@ == dot_join(chars_view(parts@)),
{
    let ghost pv = chars_view(parts@);
    let mut r: Vec<char> = Vec::new();
    let n = parts.len();
    for i in 0..n
        invariant
            n == parts@.len(),
            pv == chars_view(parts@),
            r@ == dot_join(pv.take(i as int)),
    {
        proof {
            assert(pv.take(i + 1).drop_last() =~= pv.take(i as int));
            assert(pv.take(i + 1).last() == parts@[i as int]@);
        }
        if i > 0 {
            r.push('.');
        } else {
            assert(pv.take(1)[0] == parts@[0]@);
            assert(r@ =~= Seq::<char>::empty());
        }
        extend_chars(&mut r, &parts[i]);
        proof {
            if i == 0 {
                assert(r@ =~= parts@[0]@);
            }
        }
    }
    assert(pv.take(n as int) =~= pv);
    r
}

/// The simulator-style name of a formal-tool name: escaped identifiers are
/// unescaped and the dots they hold become hierarchy separators.
pub fn transform_jg_to_verilator_like(jg: &str) -> (r: String)
    ensures
        r@ == spec_verilator_like(jg@),
{
    let parts = split_jg_parts(jg);
    let ghost pv = chars_view(parts@);
    let mut out: Vec<Vec<char>> = Vec::new();
    let n = parts.len();
    assert(pv.take(0) =~= Seq::<Seq<char>>::empty());
    for i in 0..n
        invariant
            n == parts@.len(),
            pv == chars_view(parts@),
            chars_view(out@) == flatten_verilator_parts(pv.take(i as int)),
    {
        let p = &parts[i];
        proof {
            assert(pv.take(i + 1).drop_last() =~= pv.take(i as int));
            assert(pv.take(i + 1).last() == p@);
        }
        let ghost before = chars_view(out@);
        if is_escape_start(p) {
            let rest = drop_first_char(p);
            let core = if is_escape_end(&rest) {
                let mut c = copy_chars(&rest);
                c.pop();
                assert(c@ =~= rest@.drop_last());
                c
            } else {
                rest
            };
            let pieces = split_chars(&core, '.');
            let m = pieces.len();
            for k in 0..m
                invariant
                    m == pieces@.len(),
                    chars_view(out@) == before + chars_view(pieces@).take(k as int),
            {
                let ghost prev = chars_view(out@);
                out.push(copy_chars(&pieces[k]));
                assert(chars_view(pieces@)[k as int] == pieces@[k as int]@);
                assert(chars_view(out@) =~= prev.push(pieces@[k as int]@));
                assert(chars_view(pieces@).take(k + 1) =~= chars_view(pieces@).take(k as int).push(pieces@[k as int]@));
                assert(chars_view(out@) =~= before + chars_view(pieces@).take(k + 1));
            }
            assert(chars_view(pieces@).take(m as int) =~= chars_view(pieces@));
        } else {
            out.push(copy_chars(p));
            assert(chars_view(out@) =~= before + seq![p@]);
        }
    }
    assert(pv.take(n as int) =~= pv);
    let joined = join_with_dots(&out);
    string_from_chars(&joined)
}


// ----------------------------------------------------------------------------
// Finding the formal-tool name of a simulator signal
// ----------------------------------------------------------------------------

/// `s` without `prefix`, if it starts with it.
pub open spec fn strip_prefix_text(s: Seq<char>, prefix: Seq<char>) -> Option<Seq<char>> {
    if prefix.len() <= s.len() && s.take(prefix.len() as int) == prefix { Some(s.skip(prefix.len() as int)) } else { None }
}

/// `s` without `prefix` where it starts with it, else `s`.
pub open spec fn without_prefix(s: Seq<char>, prefix: Seq<char>) -> Seq<char> {
    match strip_prefix_text(s, prefix) {
        Some(r) => r,
        None => s,
    }
}

/// The simulator name without its harness prefix.
pub open spec fn search_name(v: Seq<char>) -> Seq<char> {
    match strip_prefix_text(v, "TOP.correctness."@) {
        Some(r) => r,
        None => without_prefix(v, "correctness."@),
    }
}

/// The first formal-tool name that `search` matches part by part.
pub open spec fn first_matching(jg: Seq<Seq<char>>, search: Seq<char>) -> Option<Seq<char>>
    decreases jg.len(),
{
    if jg.len() == 0 {
        None
    } else if signal_names_match(search, jg[0]) {
        Some(jg[0])
    } else {
        first_matching(jg.drop_first(), search)
    }
}

/// The formal-tool name of a simulator signal, without its `correctness.`
/// prefix: an equal name, else one equal to the name without its harness
/// prefix, else, where the transformed names hold that name, the first
/// name it matches part by part.
pub open spec fn jg_match(v: Seq<char>, jg: Seq<Seq<char>>, transformed: Option<Seq<Seq<char>>>) -> Option<Seq<char>> {
    let search = search_name(v);
    if jg.contains(v) {
        Some(without_prefix(v, "correctness."@))
    } else if jg.contains(search) {
        Some(without_prefix(search, "correctness."@))
    } else {
        match transformed {
            Some(t) => if t.contains(search) {
                match first_matching(jg, search) {
                    Some(ws) => Some(without_prefix(ws, "correctness."@)),
                    None => None,
                }
            } else {
                None
            },
            None => None,
        }
    }
}

fn strip_prefix_chars(s: &Vec<char>, prefix: &str) -> (r: Option<Vec<char>>)
    ensures
        match strip_prefix_text(s@, prefix@) {
            Some(t) => r.is_some() && r.unwrap()@ == t,
            None => r.is_none(),
        },
{
    let p = chars_of(prefix);
    let n = p.len();
    if n > s.len() {
        return None;
    }
    for i in 0..n
        invariant
            n == p@.len(),
            p@ == prefix@,
            n <= s@.len(),
            forall|k: int| 0 <= k < i ==> s@[k] == p@[k],
    {
        if s[i] != p[i] {
            assert(s@.take(n as int)[i as int] != p@[i as int]);
            return None;
        }
    }
    assert(s@.take(n as int) =~= prefix@);
    let mut r: Vec<char> = Vec::new();
    let m = s.len();
    for i in n..m
        invariant
            n <= m,
            m == s@.len(),
            r@ == s@.subrange(n as int, i as int),
    {
        r.push(s[i]);
        assert(r@ =~= s@.subrange(n as int, i + 1));
    }
    assert(r@ =~= s@.skip(n as int));
    Some(r)
}

fn without_prefix_chars(s: &Vec<char>, prefix: &str) -> (r: Vec<char>)
    ensures
        r@ == without_prefix(s@, prefix@),
{
    match strip_prefix_chars(s, prefix) {
        Some(t) => t,
        None => copy_chars(s),
    }
}

/// The formal-tool name of a simulator signal, where one is found.
pub fn matches_any_jg_signal(
    verilator_signal: &String,
    jg_signals: &Vec<String>,
    jg_signals_transformed: Option<&Vec<String>>,
) -> (r: Option<String>)
    ensures
        match jg_match(verilator_signal@, names_view(jg_signals@), match jg_signals_transformed {
            Some(t) => Some(names_view(t@)),
            None => None,
        }) {
            Some(m) => r.is_some() && r.unwrap()@ == m,
            None => r.is_none(),
        },
{
    let v = chars_of(verilator_signal.as_str());
    let search = match strip_prefix_chars(&v, "TOP.correctness.") {
        Some(t) => t,
        None => without_prefix_chars(&v, "correctness."),
    };
    let search_string = string_from_chars(&search);
    if contains_name(jg_signals, verilator_signal) {
        let stripped = without_prefix_chars(&v, "correctness.");
        return Some(string_from_chars(&stripped));
    }
    if contains_name(jg_signals, &search_string) {
        let stripped = without_prefix_chars(&search, "correctness.");
        return Some(string_from_chars(&stripped));
    }
    match jg_signals_transformed {
        Some(transformed) => {
            if !contains_name(transformed, &search_string) {
                return None;
            }
            let n = jg_signals.len();
            let ghost jv = names_view(jg_signals@);
            assert(jv.skip(0) =~= jv);
            for i in 0..n
                invariant
                    n == jg_signals@.len(),
                    jv == names_view(jg_signals@),
                    search@ == search_name(verilator_signal@),
                    search_string@ == search@,
                    !jv.contains(verilator_signal@),
                    !jv.contains(search@),
                    jg_signals_transformed == Some(transformed),
                    names_view(transformed@).contains(search@),
                    first_matching(jv, search@) == first_matching(jv.skip(i as int), search@),
            {
                let ghost rest = jv.skip(i as int);
                assert(rest.drop_first() =~= jv.skip(i + 1));
                assert(rest[0] == jg_signals@[i as int]@);
                if match_signal_names(search_string.as_str(), jg_signals[i].as_str()) {
                    assert(signal_names_match(search@, rest[0]));
                    assert(first_matching(rest, search@) == Some(rest[0]));
                    let w = chars_of(jg_signals[i].as_str());
                    assert(w@ == rest[0]);
                    let stripped = without_prefix_chars(&w, "correctness.");
                    return Some(string_from_chars(&stripped));
                }
            }
            assert(jv.skip(n as int) =~= Seq::<Seq<char>>::empty());
            None
        },
        None => None,
    }
}


// ----------------------------------------------------------------------------
// Commands for the formal tool
// ----------------------------------------------------------------------------

/// The assertion command, which is no longer produced: a comment saying so.
pub fn get_jg_assert_command(
    _invariant: &Invariant,
    _signal_mapping: Option<&SignalRemappingInfo>,
    _name_to_code_mapping: &Vec<(String, u64)>,
) -> (r: String)
    ensures
        r@ == "/* ASSERT COMMAND NOT IMPLEMENTED ANYMORE */"@,
{
    String::from_str("/* ASSERT COMMAND NOT IMPLEMENTED ANYMORE */")
}


// ----------------------------------------------------------------------------
// The name mapping between simulator and formal tool
// ----------------------------------------------------------------------------

/// For each id, the formal-tool name of its last simulator name that has one.
pub open spec fn direct_matches(entries: Seq<(String, u64)>, jg: Seq<Seq<char>>) -> Map<u64, Seq<char>>
    decreases entries.len(),
{
    if entries.len() == 0 {
        Map::empty()
    } else {
        let prev = direct_matches(entries.drop_last(), jg);
        match jg_match(entries.last().0@, jg, None) {
            Some(m) => prev.insert(entries.last().1, m),
            None => prev,
        }
    }
}

/// The entries whose id is in `ids`, in order.
pub open spec fn entries_with_ids(entries: Seq<(String, u64)>, ids: Set<u64>) -> Seq<(String, u64)>
    decreases entries.len(),
{
    if entries.len() == 0 {
        Seq::empty()
    } else {
        let prev = entries_with_ids(entries.drop_last(), ids);
        if ids.contains(entries.last().1) { prev.push(entries.last()) } else { prev }
    }
}

pub open spec fn entry_names(entries: Seq<(String, u64)>) -> Seq<Seq<char>> {
    entries.map_values(|e: (String, u64)| e.0@)
}

/// Every variable of the expression is one of the names.
pub open spec fn vars_all_in(e: Expr, names: Seq<Seq<char>>) -> bool {
    forall|k: int| 0 <= k < expr_vars(e).len() ==> names.contains(#[trigger] expr_vars(e)[k])
}

/// Adds, for each condition whose signal has an id and whose variables all
/// have matched names, the condition's text with those names renamed.
pub open spec fn with_conditions(
    conds: Seq<(String, Expr)>,
    entries: Seq<(String, u64)>,
    matched: Seq<(String, u64)>,
    direct: Map<u64, Seq<char>>,
) -> Map<u64, Seq<char>>
    decreases conds.len(),
{
    if conds.len() == 0 {
        direct
    } else {
        let prev = with_conditions(conds.drop_last(), entries, matched, direct);
        let sig = conds.last().0;
        let e = conds.last().1;
        match first_id_of(entries, sig@) {
            None => prev,
            Some(code) => if vars_all_in(e, entry_names(matched)) {
                prev.insert(code, expr_text(e, Some(matched), Some(direct)))
            } else {
                prev
            },
        }
    }
}

/// The formal-tool text of each simulator signal id: the matched name, or
/// for an inserted signal the text of its defining expression.
pub open spec fn jg_signal_mapping(jg: Seq<Seq<char>>, entries: Seq<(String, u64)>, conds: Option<Seq<(String, Expr)>>) -> Map<u64, Seq<char>> {
    let direct = direct_matches(entries, jg);
    match conds {
        None => direct,
        Some(c) => with_conditions(c, entries, entries_with_ids(entries, direct.dom()), direct),
    }
}

pub open spec fn conds_opt(c: Option<&Vec<(String, Expr)>>) -> Option<Seq<(String, Expr)>> {
    match c {
        Some(v) => Some(v@),
        None => None,
    }
}

proof fn lemma_first_id_in_ids(m: Seq<(String, u64)>, ids: Set<u64>, name: Seq<char>)
    requires
        forall|k: int| 0 <= k < m.len() ==> ids.contains(#[trigger] m[k].1),
        entry_names(m).contains(name),
    ensures
        first_id_of(m, name) is Some,
        ids.contains(first_id_of(m, name).unwrap()),
    decreases m.len(),
{
    if m[0].0@ != name {
        let k = choose|k: int| 0 <= k < entry_names(m).len() && entry_names(m)[k] == name;
        assert(entry_names(m)[k] == m[k].0@);
        assert(k != 0);
        assert(entry_names(m.drop_first())[k - 1] == name);
        assert forall|j: int| 0 <= j < m.drop_first().len() implies ids.contains(#[trigger] m.drop_first()[j].1) by {
            assert(m.drop_first()[j] == m[j + 1]);
        }
        lemma_first_id_in_ids(m.drop_first(), ids, name);
    }
}

/// The mapping from simulator signal ids to formal-tool texts: each id gets
/// the formal-tool name one of its simulator names matches; with conditions,
/// each inserted signal whose expression reads only matched signals gets
/// that expression in formal-tool names.
pub fn get_signal_mapping_between_jg_and_verilator(
    jg_signals: &Vec<String>,
    verilator_name_to_code: &Vec<(String, u64)>,
    cond_map: Option<&Vec<(String, Expr)>>,
) -> (r: HashMap<u64, String>)
    ensures
        texts_of(r@) == jg_signal_mapping(names_view(jg_signals@), verilator_name_to_code@, conds_opt(cond_map)),
{
    let ghost jv = names_view(jg_signals@);
    let entries = verilator_name_to_code;
    let n = entries.len();
    let mut jg_signal_mapping: HashMap<u64, String> = HashMap::new();
    let mut signal_mapping: HashMap<u64, String> = HashMap::new();
    assert(texts_of(jg_signal_mapping@) =~= direct_matches(entries@.take(0), jv));
    for i in 0..n
        invariant
            n == entries@.len(),
            jv == names_view(jg_signals@),
            texts_of(jg_signal_mapping@) == direct_matches(entries@.take(i as int), jv),
            texts_of(signal_mapping@) == direct_matches(entries@.take(i as int), jv),
    {
        proof {
            assert(entries@.take(i + 1).drop_last() =~= entries@.take(i as int));
            assert(entries@.take(i + 1).last() == entries@[i as int]);
        }
        let found = matches_any_jg_signal(&entries[i].0, jg_signals, None);
        match found {
            Some(m) => {
                let ghost before = texts_of(jg_signal_mapping@);
                jg_signal_mapping.insert(entries[i].1, m.clone());
                signal_mapping.insert(entries[i].1, m);
                assert(texts_of(jg_signal_mapping@) =~= before.insert(entries@[i as int].1, m@));
                assert(texts_of(signal_mapping@) =~= before.insert(entries@[i as int].1, m@));
            },
            None => {},
        }
    }
    assert(entries@.take(n as int) =~= entries@);
    let ghost direct = direct_matches(entries@, jv);
    let mut matched: Vec<(String, u64)> = Vec::new();
    let mut matched_names: Vec<String> = Vec::new();
    for i in 0..n
        invariant
            n == entries@.len(),
            texts_of(jg_signal_mapping@) == direct,
            matched@ == entries_with_ids(entries@.take(i as int), direct.dom()),
            names_view(matched_names@) == entry_names(matched@),
    {
        proof {
            assert(entries@.take(i + 1).drop_last() =~= entries@.take(i as int));
            assert(entries@.take(i + 1).last() == entries@[i as int]);
        }
        if jg_signal_mapping.contains_key(&entries[i].1) {
            let ghost before = names_view(matched_names@);
            let ghost old_matched = matched@;
            let name = entries[i].0.clone();
            let name2 = entries[i].0.clone();
            assert(name@ == entries@[i as int].0@ && name2@ == entries@[i as int].0@);
            matched.push((name, entries[i].1));
            matched_names.push(name2);
            assert(matched@ =~= entries_with_ids(entries@.take(i + 1), direct.dom()));
            assert(names_view(matched_names@) =~= before.push(entries@[i as int].0@));
            assert(entry_names(matched@) =~= entry_names(old_matched).push(entries@[i as int].0@));
        } else {
            assert(matched@ =~= entries_with_ids(entries@.take(i + 1), direct.dom()));
        }
    }
    assert(entries@.take(n as int) =~= entries@);
    proof {
        assert forall|k: int| 0 <= k < matched@.len() implies direct.dom().contains(#[trigger] matched@[k].1) by {
            lemma_entries_with_ids_in(entries@, direct.dom(), k);
        }
    }
    match cond_map {
        None => {},
        Some(conds) => {
            let m = conds.len();
            assert(with_conditions(conds@.take(0), entries@, matched@, direct) == direct);
            for c in 0..m
                invariant
                    m == conds@.len(),
                    texts_of(jg_signal_mapping@) == direct,
                    matched@ == entries_with_ids(entries@, direct.dom()),
                    names_view(matched_names@) == entry_names(matched@),
                    forall|k: int| 0 <= k < matched@.len() ==> direct.dom().contains(#[trigger] matched@[k].1),
                    texts_of(signal_mapping@) == with_conditions(conds@.take(c as int), entries@, matched@, direct),
            {
                proof {
                    assert(conds@.take(c + 1).drop_last() =~= conds@.take(c as int));
                    assert(conds@.take(c + 1).last() == conds@[c as int]);
                }
                let (sig, e) = (&conds[c].0, &conds[c].1);
                match first_id(entries, sig.as_str()) {
                    None => {},
                    Some(code) => {
                        if e.expression_okay_for_signal_list(&matched_names) {
                            proof {
                                assert forall|k: int| 0 <= k < expr_vars(*e).len() implies
                                    var_resolvable(#[trigger] expr_vars(*e)[k], Some(matched@), Some(direct)) by {
                                    lemma_first_id_in_ids(matched@, direct.dom(), expr_vars(*e)[k]);
                                }
                                lemma_resolvable_if_vars_resolvable(*e, Some(matched@), Some(direct));
                            }
                            let text = e.to_verilog(Some(&matched), Some(&jg_signal_mapping));
                            let ghost before = texts_of(signal_mapping@);
                            signal_mapping.insert(code, text);
                            assert(texts_of(signal_mapping@) =~= before.insert(code, expr_text(*e, Some(matched@), Some(direct))));
                        }
                    },
                }
            }
            assert(conds@.take(m as int) =~= conds@);
        },
    }
    signal_mapping
}

proof fn lemma_entries_with_ids_in(entries: Seq<(String, u64)>, ids: Set<u64>, k: int)
    requires
        0 <= k < entries_with_ids(entries, ids).len(),
    ensures
        ids.contains(entries_with_ids(entries, ids)[k].1),
    decreases entries.len(),
{
    if entries.len() > 0 {
        let prev = entries_with_ids(entries.drop_last(), ids);
        if k < prev.len() {
            lemma_entries_with_ids_in(entries.drop_last(), ids, k);
        }
    }
}


// ----------------------------------------------------------------------------
// Separators in the formal tool's names
// ----------------------------------------------------------------------------

/// For each id of `ids`, the name of the first entry with that id.
pub open spec fn first_names(entries: Seq<(String, u64)>, ids: Set<u64>) -> Map<u64, Seq<char>>
    decreases entries.len(),
{
    if entries.len() == 0 {
        Map::empty()
    } else {
        let prev = first_names(entries.drop_last(), ids);
        let e = entries.last();
        if ids.contains(e.1) && !prev.contains_key(e.1) { prev.insert(e.1, e.0@) } else { prev }
    }
}

/// The text of a separator with its signals renamed through `mapping`.
pub open spec fn separator_jg_text(f: &SeparatorFormula, mapping: Map<u64, Seq<char>>) -> Seq<char> {
    match f {
        SeparatorFormula::InvariantDisjunction(d) => spec_disjunction_jg_text(d@, mapping),
        SeparatorFormula::Invariant(i) => spec_invariant_jg_text(i@, mapping),
    }
}

/// The names that a separator is written with: with renaming information, the
/// mapping to the formal tool's names (against its own list of names, or
/// against the simulator names where it has none); without, the first
/// simulator name of each index that the separator reads.
pub open spec fn final_jg_mapping(
    f: &SeparatorFormula,
    info: Option<&SignalRemappingInfo>,
    entries: Seq<(String, u64)>,
) -> Map<u64, Seq<char>> {
    match info {
        Some(i) => jg_signal_mapping(
            match i.jg_signals {
                Some(v) => names_view(v@),
                None => entry_names(entries),
            },
            entries,
            match i.cond_map {
                Some(c) => Some(c@),
                None => None,
            },
        ),
        None => first_names(entries, disj_known_idx(separator_as_disjunction(f))),
    }
}

fn first_names_for(ids: &HashSet<u64>, entries: &Vec<(String, u64)>) -> (r: HashMap<u64, String>)
    ensures
        texts_of(r@) == first_names(entries@, ids@),
{
    let mut r: HashMap<u64, String> = HashMap::new();
    let n = entries.len();
    assert(texts_of(r@) =~= first_names(entries@.take(0), ids@));
    for i in 0..n
        invariant
            n == entries@.len(),
            texts_of(r@) == first_names(entries@.take(i as int), ids@),
    {
        proof {
            assert(entries@.take(i + 1).drop_last() =~= entries@.take(i as int));
            assert(entries@.take(i + 1).last() == entries@[i as int]);
        }
        let code = entries[i].1;
        if ids.contains(&code) && !r.contains_key(&code) {
            let ghost before = texts_of(r@);
            let name = entries[i].0.clone();
            r.insert(code, name);
            assert(texts_of(r@) =~= before.insert(code, entries@[i as int].0@));
        }
    }
    assert(entries@.take(n as int) =~= entries@);
    r
}

fn entry_name_list(entries: &Vec<(String, u64)>) -> (r: Vec<String>)
    ensures
        names_view(r@) == entry_names(entries@),
{
    let mut r: Vec<String> = Vec::new();
    let n = entries.len();
    for i in 0..n
        invariant
            n == entries@.len(),
            names_view(r@) == entry_names(entries@.take(i as int)),
    {
        let ghost before = r@;
        let name = entries[i].0.clone();
        r.push(name);
        assert(names_view(r@) =~= names_view(before).push(entries@[i as int].0@));
        assert(entry_names(entries@.take(i + 1)) =~= entry_names(entries@.take(i as int)).push(entries@[i as int].0@));
    }
    assert(entries@.take(n as int) =~= entries@);
    r
}

/// The separator written with the formal tool's names (see `final_jg_mapping`).
pub fn format_invariant_with_signal_mapping(
    formula: &SeparatorFormula,
    signal_mapping: Option<&SignalRemappingInfo>,
    name_to_code_mapping: &Vec<(String, u64)>,
) -> (r: String)
    requires
        disjunction_mapping_covers(
            separator_as_disjunction(formula),
            final_jg_mapping(formula, signal_mapping, name_to_code_mapping@),
        ),
    ensures
        r@ == separator_jg_text(formula, final_jg_mapping(formula, signal_mapping, name_to_code_mapping@)),
{
    let mapping = match signal_mapping {
        Some(info) => {
            let own_names;
            let jg_names = match &info.jg_signals {
                Some(v) => v,
                None => {
                    own_names = entry_name_list(name_to_code_mapping);
                    &own_names
                },
            };
            get_signal_mapping_between_jg_and_verilator(jg_names, name_to_code_mapping, info.cond_map.as_ref())
        },
        None => {
            let ids = formula.get_relevant_signal_idx();
            first_names_for(&ids, name_to_code_mapping)
        },
    };
    formula.to_jg_string_with_signal_mapping(&mapping)
}

/// The assumption command that rules the separator out: `assume {!(` text `)}`.
pub fn get_jg_assume_command(
    formula: &SeparatorFormula,
    signal_remapping: Option<&SignalRemappingInfo>,
    name_to_code_mapping: &Vec<(String, u64)>,
) -> (r: String)
    requires
        disjunction_mapping_covers(
            separator_as_disjunction(formula),
            final_jg_mapping(formula, signal_remapping, name_to_code_mapping@),
        ),
    ensures
        r@ == "assume {!("@ + separator_jg_text(formula, final_jg_mapping(formula, signal_remapping, name_to_code_mapping@))
            + ")}"@,
{
    let text = format_invariant_with_signal_mapping(formula, signal_remapping, name_to_code_mapping);
    let mut r = String::from_str("assume {!(");
    r.append(text.as_str());
    r.append(")}");
    proof {
        reveal_strlit("assume {!(");
        reveal_strlit(")}");
    }
    r
}

} // verus!
