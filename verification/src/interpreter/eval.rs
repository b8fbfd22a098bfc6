//! Evaluation of shell arithmetic over the library's own variable store:
//! `i64` arithmetic that wraps, array elements by evaluated index or by
//! associative key text, assignments and increments, short-circuiting by
//! evaluating only the branch taken, and stored strings evaluated as
//! arithmetic in turn, to a bounded nesting depth. Parsing is
//! `brush_parser`'s.
use vstd::prelude::*;
use brush_parser::ast as brush;
use vstd::utf8::encode_utf8;

use crate::error::RustBashError;
use crate::interpreter::arithmetic::{
    binary_result, decimal, is_arith_space, is_computed, pairs_view, render, strip_from, substitute_from, ArithExpr,
    ArithTarget, ArithBinaryOp, ArithStepOp, ArithUnaryOp,
};
use crate::interpreter::arithmetic::{apply_binary_arith, push_decimal, push_digits, render_index_for_message, strip_and_validate, substitute_quoted_assoc_subscripts};
use crate::text::{chars_of, compare_chars, push_str};
use crate::vfs::overlay_tree::strings_view;

verus! {

// ── The variable store ─────────────────────────────────────────────

/// The value of a shell variable.
pub enum VarValue {
    Scalar(String),
    /// Elements with their indices (the store's writes keep them in
    /// increasing order; the last one counts as the highest).
    Indexed(Vec<(u64, String)>),
    Assoc(Vec<(String, String)>),
}

/// A variable's value as plain values.
pub enum ValView {
    Scalar(Seq<char>),
    Indexed(Seq<(u64, Seq<char>)>),
    Assoc(Seq<(Seq<char>, Seq<char>)>),
}

pub open spec fn val_view(v: VarValue) -> ValView {
    match v {
        VarValue::Scalar(s) => ValView::Scalar(s@),
        VarValue::Indexed(es) => ValView::Indexed(es@.map_values(|e: (u64, String)| (e.0, e.1@))),
        VarValue::Assoc(es) => ValView::Assoc(es@.map_values(|e: (String, String)| (e.0@, e.1@))),
    }
}

/// What arithmetic reads and writes of the shell: its variables (the
/// first entry of a name counts), the positional parameters, the last
/// exit status, the shell's name (`$0`), and the `nounset` and
/// `strict_arith` options.
pub struct VarStore {
    pub vars: Vec<(String, VarValue)>,
    pub positional: Vec<String>,
    pub last_exit: i64,
    pub shell_name: String,
    pub nounset: bool,
    pub strict_arith: bool,
}

pub struct StoreView {
    pub vars: Seq<(Seq<char>, ValView)>,
    pub positional: Seq<Seq<char>>,
    pub last_exit: i64,
    pub shell_name: Seq<char>,
    pub nounset: bool,
    pub strict: bool,
}

impl View for VarStore {
    type V = StoreView;

    open spec fn view(&self) -> StoreView {
        StoreView {
            vars: self.vars@.map_values(|e: (String, VarValue)| (e.0@, val_view(e.1))),
            positional: strings_view(self.positional@),
            last_exit: self.last_exit,
            shell_name: self.shell_name@,
            nounset: self.nounset,
            strict: self.strict_arith,
        }
    }
}

impl VarStore {
    /// An empty store: no variables, no positional parameters, exit status
    /// 0, the shell named `rust-bash`, both options off.
    pub fn new() -> (st: Self)
        ensures
            st@.vars.len() == 0,
            st@.positional.len() == 0,
            st@.last_exit == 0,
            st@.shell_name == "rust-bash"@,
            !st@.nounset,
            !st@.strict,
    {
        let st = VarStore {
            vars: Vec::new(),
            positional: Vec::new(),
            last_exit: 0,
            shell_name: String::from_str("rust-bash"),
            nounset: false,
            strict_arith: false,
        };
        assert(st@.vars =~= Seq::<(Seq<char>, ValView)>::empty());
        assert(st@.positional =~= Seq::<Seq<char>>::empty());
        st
    }

    /// The variable `name` read as one string (see `scalar_text`).
    pub fn scalar(&self, name: &str) -> (r: String)
        ensures
            r@ == scalar_text(lookup_var(self@.vars, name@)),
    {
        scalar_text_of(self, name)
    }
}

// ── Store operations, as plain values ──────────────────────────────

/// The value of the first entry called `k`.
pub open spec fn first_value<V>(es: Seq<(Seq<char>, V)>, k: Seq<char>) -> Option<V>
    decreases es.len(),
{
    if es.len() == 0 {
        None
    } else if es[0].0 == k {
        Some(es[0].1)
    } else {
        first_value(es.drop_first(), k)
    }
}

/// `es` with the first entry called `k` set to `v`, or `(k, v)` added at
/// the end.
pub open spec fn put_first<V>(es: Seq<(Seq<char>, V)>, k: Seq<char>, v: V) -> Seq<(Seq<char>, V)>
    decreases es.len(),
{
    if es.len() == 0 {
        seq![(k, v)]
    } else if es[0].0 == k {
        es.update(0, (k, v))
    } else {
        seq![es[0]] + put_first(es.drop_first(), k, v)
    }
}

/// The value of the first variable called `name`.
pub open spec fn lookup_var(vars: Seq<(Seq<char>, ValView)>, name: Seq<char>) -> Option<ValView> {
    first_value(vars, name)
}

/// `vars` with the first variable called `name` set to `v`, or `v` added
/// at the end.
pub open spec fn put_var(vars: Seq<(Seq<char>, ValView)>, name: Seq<char>, v: ValView) -> Seq<(Seq<char>, ValView)> {
    put_first(vars, name, v)
}

/// The element at index `i`, if any.
pub open spec fn index_get(es: Seq<(u64, Seq<char>)>, i: u64) -> Option<Seq<char>>
    decreases es.len(),
{
    if es.len() == 0 {
        None
    } else if es[0].0 == i {
        Some(es[0].1)
    } else {
        index_get(es.drop_first(), i)
    }
}

/// `es` with element `i` set to `v`, kept in index order.
pub open spec fn index_put(es: Seq<(u64, Seq<char>)>, i: u64, v: Seq<char>) -> Seq<(u64, Seq<char>)>
    decreases es.len(),
{
    if es.len() == 0 {
        seq![(i, v)]
    } else if es[0].0 == i {
        es.update(0, (i, v))
    } else if es[0].0 > i {
        seq![(i, v)] + es
    } else {
        seq![es[0]] + index_put(es.drop_first(), i, v)
    }
}

/// The value at key `k`, if any.
pub open spec fn key_get(es: Seq<(Seq<char>, Seq<char>)>, k: Seq<char>) -> Option<Seq<char>> {
    first_value(es, k)
}

/// `es` with key `k` set to `v` (added at the end when new).
pub open spec fn key_put(es: Seq<(Seq<char>, Seq<char>)>, k: Seq<char>, v: Seq<char>) -> Seq<(Seq<char>, Seq<char>)> {
    put_first(es, k, v)
}

/// The store with its variables replaced.
pub open spec fn with_vars(s: StoreView, vars: Seq<(Seq<char>, ValView)>) -> StoreView {
    StoreView { vars, ..s }
}

/// Assigning the text `t` to the variable `name`: a scalar (new or old)
/// takes it, an indexed array takes it as element 0, an associative array
/// under the key `0`.
pub open spec fn set_variable_s(s: StoreView, name: Seq<char>, t: Seq<char>) -> StoreView {
    let v = match lookup_var(s.vars, name) {
        Some(ValView::Indexed(es)) => ValView::Indexed(index_put(es, 0, t)),
        Some(ValView::Assoc(es)) => ValView::Assoc(key_put(es, "0"@, t)),
        _ => ValView::Scalar(t),
    };
    with_vars(s, put_var(s.vars, name, v))
}

/// Setting element `i` of the array `name` to `t`: a missing variable
/// becomes an indexed array, a scalar becomes one with its value as
/// element 0, an associative array takes the index's text as key.
pub open spec fn set_element_s(s: StoreView, name: Seq<char>, i: u64, t: Seq<char>) -> StoreView {
    let v = match lookup_var(s.vars, name) {
        None => ValView::Indexed(seq![(i, t)]),
        Some(ValView::Scalar(old)) => ValView::Indexed(index_put(seq![(0u64, old)], i, t)),
        Some(ValView::Indexed(es)) => ValView::Indexed(index_put(es, i, t)),
        Some(ValView::Assoc(es)) => ValView::Assoc(key_put(es, decimal(i as int), t)),
    };
    with_vars(s, put_var(s.vars, name, v))
}

/// Setting key `k` of the associative array `name` to `t`.
pub open spec fn set_key_s(s: StoreView, name: Seq<char>, k: Seq<char>, t: Seq<char>) -> StoreView {
    let v = match lookup_var(s.vars, name) {
        Some(ValView::Assoc(es)) => ValView::Assoc(key_put(es, k, t)),
        _ => ValView::Assoc(seq![(k, t)]),
    };
    with_vars(s, put_var(s.vars, name, v))
}

/// The names of the associative arrays, in store order.
pub open spec fn assoc_names(vars: Seq<(Seq<char>, ValView)>) -> Seq<Seq<char>>
    decreases vars.len(),
{
    if vars.len() == 0 {
        seq![]
    } else {
        let rest = assoc_names(vars.drop_first());
        if vars[0].1 is Assoc {
            seq![vars[0].0] + rest
        } else {
            rest
        }
    }
}

/// A variable's value read as one string: a scalar's text, element 0 of
/// an indexed array, the key `0` of an associative array, or empty.
pub open spec fn scalar_text(v: Option<ValView>) -> Seq<char> {
    match v {
        Some(ValView::Scalar(t)) => t,
        Some(ValView::Indexed(es)) => match index_get(es, 0) {
            Some(t) => t,
            None => seq![],
        },
        Some(ValView::Assoc(es)) => match key_get(es, "0"@) {
            Some(t) => t,
            None => seq![],
        },
        None => seq![],
    }
}

// ── Numbers in text ────────────────────────────────────────────────

pub open spec fn all_digits(s: Seq<char>) -> bool {
    forall|i: int| 0 <= i < s.len() ==> '0' <= #[trigger] s[i] <= '9'
}

/// The value of a run of decimal digits.
pub open spec fn digits_value(s: Seq<char>) -> int
    decreases s.len(),
{
    if s.len() == 0 {
        0
    } else {
        digits_value(s.drop_last()) * 10 + (s.last() as int - '0' as int)
    }
}

/// How `str::parse::<i64>` reads `s`: an optional sign and at least one
/// decimal digit, in range.
pub open spec fn parsed_i64(s: Seq<char>) -> Option<i64> {
    let neg = s.len() > 0 && s[0] == '-';
    let body = if s.len() > 0 && (s[0] == '-' || s[0] == '+') {
        s.drop_first()
    } else {
        s
    };
    let v = if neg {
        -digits_value(body)
    } else {
        digits_value(body)
    };
    if body.len() > 0 && all_digits(body) && i64::MIN <= v <= i64::MAX {
        Some(v as i64)
    } else {
        None
    }
}

/// How `str::parse::<usize>` reads `s`: an optional `+` and at least one
/// decimal digit, in range.
pub open spec fn parsed_usize(s: Seq<char>) -> Option<usize> {
    let body = if s.len() > 0 && s[0] == '+' {
        s.drop_first()
    } else {
        s
    };
    if body.len() > 0 && all_digits(body) && digits_value(body) <= usize::MAX {
        Some(digits_value(body) as usize)
    } else {
        None
    }
}

/// A shell variable name: ASCII letters, digits and `_`, not starting
/// with a digit (the empty text counts).
pub open spec fn name_like(s: Seq<char>) -> bool {
    &&& forall|i: int|
        0 <= i < s.len() ==> ('0' <= #[trigger] s[i] <= '9' || 'a' <= s[i] <= 'z' || 'A' <= s[i] <= 'Z' || s[i] == '_')
    &&& !(s.len() > 0 && '0' <= s[0] <= '9')
}

// ── The parser ─────────────────────────────────────────────────────

/// The result of `brush_parser::arithmetic::parse` on `text`: the
/// expression, or the message of its syntax error.
pub uninterp spec fn arith_parse(text: Seq<char>) -> Result<ArithExpr, Seq<char>>;

pub open spec fn parse_view(r: Result<ArithExpr, String>) -> Result<ArithExpr, Seq<char>> {
    match r {
        Ok(e) => Ok(e),
        Err(m) => Err(m@),
    }
}

/// Every compound assignment uses an operator that computes a value
/// (never `,`, `&&` or `||`, which the parser does not produce there).
pub open spec fn wf_expr(e: ArithExpr) -> bool
    decreases e,
{
    match e {
        ArithExpr::Literal(_) => true,
        ArithExpr::Reference(t) => wf_target(t),
        ArithExpr::UnaryOp(_, a) => wf_expr(*a),
        ArithExpr::BinaryOp(_, a, b) => wf_expr(*a) && wf_expr(*b),
        ArithExpr::Conditional(a, b, c) => wf_expr(*a) && wf_expr(*b) && wf_expr(*c),
        ArithExpr::Assignment(t, a) => wf_target(t) && wf_expr(*a),
        ArithExpr::BinaryAssignment(op, t, a) => is_computed(op) && wf_target(t) && wf_expr(*a),
        ArithExpr::UnaryAssignment(_, t) => wf_target(t),
    }
}

pub open spec fn wf_target(t: ArithTarget) -> bool
    decreases t,
{
    match t {
        ArithTarget::Variable(_) => true,
        ArithTarget::ArrayElement(_, i) => wf_expr(*i),
    }
}

// ── Evaluation, as plain values ────────────────────────────────────

/// What may be asked of evaluation: a result, or the message of the
/// error that stopped it.
pub type Outcome = Result<i64, Seq<char>>;

/// The value of a unary operator (`-` wraps).
pub open spec fn unary_value(op: ArithUnaryOp, v: i64) -> i64 {
    match op {
        ArithUnaryOp::LogicalNot => if v == 0 {
            1
        } else {
            0
        },
        ArithUnaryOp::BitwiseNot => !v,
        ArithUnaryOp::UnaryPlus => v,
        ArithUnaryOp::UnaryMinus => if v == i64::MIN {
            i64::MIN
        } else {
            (-v) as i64
        },
    }
}

/// The step of an increment or decrement (wrapping).
pub open spec fn stepped(op: ArithStepOp, old: i64) -> i64 {
    if op is PrefixIncrement || op is PostfixIncrement {
        vstd::wrapping::i64_specs::wrapping_add(old, 1i64)
    } else {
        vstd::wrapping::i64_specs::wrapping_add(old, -1i64)
    }
}

/// The first key text recorded for a placeholder name.
pub open spec fn pair_lookup(phs: Seq<(Seq<char>, Seq<char>)>, n: Seq<char>) -> Option<Seq<char>>
    decreases phs.len(),
{
    if phs.len() == 0 {
        None
    } else if phs[0].0 == n {
        Some(phs[0].1)
    } else {
        pair_lookup(phs.drop_first(), n)
    }
}

/// The key of an associative subscript: the text of its expression (a
/// placeholder stands for the quoted key it replaced), never its value.
pub open spec fn assoc_key(idx: ArithExpr, phs: Seq<(Seq<char>, Seq<char>)>) -> Seq<char> {
    match idx {
        ArithExpr::Reference(ArithTarget::Variable(n)) => match pair_lookup(phs, n@) {
            Some(k) => k,
            None => n@,
        },
        ArithExpr::Literal(n) => decimal(n as int),
        _ => render(idx),
    }
}

/// The names the scanner gives `$#`, `$?` and `$N`, mapped back.
pub open spec fn mapped_name(name: Seq<char>) -> Seq<char> {
    if name == "__RB_ARITH_HASH__"@ {
        "#"@
    } else if name == "__RB_ARITH_QUESTION__"@ {
        "?"@
    } else if "__RB_ARITH_POS_"@.is_prefix_of(name) && "__"@.is_suffix_of(name.skip(15)) {
        name.subrange(15, name.len() - 2)
    } else {
        name
    }
}

/// Only blanks (the scanner's output holds no other whitespace).
pub open spec fn all_blank(t: Seq<char>) -> bool {
    forall|i: int| 0 <= i < t.len() ==> #[trigger] t[i] == ' ' || t[i] == '\t' || t[i] == '\n'
}

pub open spec fn or_empty(o: Option<Seq<char>>) -> Seq<char> {
    match o {
        Some(t) => t,
        None => seq![],
    }
}

pub open spec fn depth_exceeded(ctx: Seq<char>) -> Seq<char> {
    ctx + ": recursive evaluation depth exceeded"@
}

pub open spec fn syntax_error() -> Seq<char> {
    "arithmetic: syntax error: operand expected"@
}

/// Evaluating `e` in the store `s`, with the placeholders `phs` and at
/// most `depth` more levels of stored strings evaluated in turn: the
/// outcome and the store after it.
pub open spec fn eval_s(e: ArithExpr, s: StoreView, phs: Seq<(Seq<char>, Seq<char>)>, depth: nat) -> (Outcome, StoreView)
    decreases depth, 13int, e,
{
    match e {
        ArithExpr::Literal(n) => (Ok(n), s),
        ArithExpr::Reference(t) => read_s(t, s, phs, depth),
        ArithExpr::UnaryOp(op, a) => {
            let (r, s1) = eval_s(*a, s, phs, depth);
            match r {
                Err(m) => (Err(m), s1),
                Ok(v) => (Ok(unary_value(op, v)), s1),
            }
        },
        ArithExpr::BinaryOp(op, a, b) => {
            let (r, s1) = eval_s(*a, s, phs, depth);
            match r {
                Err(m) => (Err(m), s1),
                Ok(l) => if op is Comma {
                    eval_s(*b, s1, phs, depth)
                } else if op is LogicalOr && l != 0 {
                    (Ok(1), s1)
                } else if op is LogicalAnd && l == 0 {
                    (Ok(0), s1)
                } else {
                    let (r2, s2) = eval_s(*b, s1, phs, depth);
                    match r2 {
                        Err(m) => (Err(m), s2),
                        Ok(w) => if op is LogicalOr || op is LogicalAnd {
                            (Ok(if w != 0 { 1 } else { 0 }), s2)
                        } else {
                            (binary_result(op, l, w), s2)
                        },
                    }
                },
            }
        },
        ArithExpr::Conditional(c, a, b) => {
            let (r, s1) = eval_s(*c, s, phs, depth);
            match r {
                Err(m) => (Err(m), s1),
                Ok(v) => if v != 0 {
                    eval_s(*a, s1, phs, depth)
                } else {
                    eval_s(*b, s1, phs, depth)
                },
            }
        },
        ArithExpr::Assignment(t, a) => {
            let (r, s1) = eval_s(*a, s, phs, depth);
            match r {
                Err(m) => (Err(m), s1),
                Ok(v) => {
                    let (w, s2) = write_s(t, v, s1, phs, depth);
                    match w {
                        Err(m) => (Err(m), s2),
                        Ok(_) => (Ok(v), s2),
                    }
                },
            }
        },
        ArithExpr::BinaryAssignment(op, t, a) => {
            let (r, s1) = eval_s(*a, s, phs, depth);
            match r {
                Err(m) => (Err(m), s1),
                Ok(rv) => {
                    let (l, s2) = read_s(t, s1, phs, depth);
                    match l {
                        Err(m) => (Err(m), s2),
                        Ok(lv) => match binary_result(op, lv, rv) {
                            Err(m) => (Err(m), s2),
                            Ok(v) => {
                                let (w, s3) = write_s(t, v, s2, phs, depth);
                                match w {
                                    Err(m) => (Err(m), s3),
                                    Ok(_) => (Ok(v), s3),
                                }
                            },
                        },
                    }
                },
            }
        },
        ArithExpr::UnaryAssignment(op, t) => {
            let (l, s1) = read_s(t, s, phs, depth);
            match l {
                Err(m) => (Err(m), s1),
                Ok(old) => {
                    let new = stepped(op, old);
                    let (w, s2) = write_s(t, new, s1, phs, depth);
                    match w {
                        Err(m) => (Err(m), s2),
                        Ok(_) => (Ok(if op is PrefixIncrement || op is PrefixDecrement { new } else { old }), s2),
                    }
                },
            }
        },
    }
}

/// Reading what a target names.
pub open spec fn read_s(t: ArithTarget, s: StoreView, phs: Seq<(Seq<char>, Seq<char>)>, depth: nat) -> (Outcome, StoreView)
    decreases depth, 13int, t,
{
    match t {
        ArithTarget::Variable(name) => read_var_s(mapped_name(name@), s, depth),
        ArithTarget::ArrayElement(name, idx) => match lookup_var(s.vars, name@) {
            Some(ValView::Assoc(es)) => {
                let key = assoc_key(*idx, phs);
                text_value_s(or_empty(key_get(es, key)), s, depth, name@ + "["@ + key + "]"@)
            },
            found => if s.nounset && found is None {
                (Err(name@ + "["@ + render(*idx) + "]: unbound variable"@), s)
            } else {
                let (r, s1) = eval_s(*idx, s, phs, depth);
                match r {
                    Err(m) => (Err(m), s1),
                    Ok(i) => indexed_read_s(name@, i, s1, depth),
                }
            },
        },
    }
}

/// Reading element `i` of an indexed array (or a scalar): a negative
/// index counts back from one past the highest index; one that stays
/// negative reads 0.
pub open spec fn indexed_read_s(name: Seq<char>, i: i64, s: StoreView, depth: nat) -> (Outcome, StoreView)
    decreases depth, 1int, ArithExpr::Literal(0),
{
    let ctx = name + "["@ + decimal(i as int) + "]"@;
    match lookup_var(s.vars, name) {
        None => (Ok(0), s),
        Some(ValView::Indexed(es)) => {
            let top: int = if es.len() > 0 {
                es.last().0 as int
            } else {
                0
            };
            let at: int = if i < 0 {
                top + 1 + i
            } else {
                i as int
            };
            if at < 0 {
                (Ok(0), s)
            } else {
                text_value_s(or_empty(index_get(es, at as u64)), s, depth, ctx)
            }
        },
        Some(ValView::Scalar(t)) => text_value_s(
            if i == 0 || i == -1 {
                t
            } else {
                seq![]
            },
            s,
            depth,
            ctx,
        ),
        Some(ValView::Assoc(_)) => text_value_s(seq![], s, depth, ctx),
    }
}

/// A stored string as a number: empty is 0, a decimal integer is itself,
/// anything else is evaluated as arithmetic one level deeper.
pub open spec fn text_value_s(t: Seq<char>, s: StoreView, depth: nat, ctx: Seq<char>) -> (Outcome, StoreView)
    decreases depth, 0int, ArithExpr::Literal(0),
{
    if t.len() == 0 {
        (Ok(0), s)
    } else {
        match parsed_i64(t) {
            Some(v) => (Ok(v), s),
            None => if depth == 0 {
                (Err(depth_exceeded(ctx)), s)
            } else {
                eval_text_s(t, s, (depth - 1) as nat)
            },
        }
    }
}

/// Reading a variable by name: `#` is the number of positional
/// parameters, `?` the last exit status, a number names `$0` or a
/// positional parameter (as a decimal integer, else 0); an unset name is
/// an error under `nounset`, otherwise its value is resolved.
pub open spec fn read_var_s(name: Seq<char>, s: StoreView, depth: nat) -> (Outcome, StoreView)
    decreases depth, 12int, ArithExpr::Literal(0),
{
    if name == "#"@ {
        (Ok(s.positional.len() as i64), s)
    } else if name == "?"@ {
        (Ok(s.last_exit), s)
    } else {
        match parsed_usize(name) {
            Some(n) => if n == 0 {
                (Ok(match parsed_i64(s.shell_name) {
                    Some(v) => v,
                    None => 0,
                }), s)
            } else if n - 1 < s.positional.len() {
                (Ok(match parsed_i64(s.positional[n - 1]) {
                    Some(v) => v,
                    None => 0,
                }), s)
            } else {
                (Ok(0), s)
            },
            None => if s.nounset && lookup_var(s.vars, name) is None {
                (Err(name + ": unbound variable"@), s)
            } else {
                resolve_s(name, 0, s, depth)
            },
        }
    }
}

/// A variable's value as a number: empty is 0, a decimal integer is
/// itself, a variable name is resolved in turn (ten times at most), and
/// anything else is evaluated as arithmetic one level deeper.
pub open spec fn resolve_s(name: Seq<char>, d: nat, s: StoreView, depth: nat) -> (Outcome, StoreView)
    decreases depth, 11 - d, ArithExpr::Literal(0),
{
    let t = scalar_text(lookup_var(s.vars, name));
    if t.len() == 0 {
        (Ok(0), s)
    } else {
        match parsed_i64(t) {
            Some(v) => (Ok(v), s),
            None => if d < 10 && name_like(t) {
                resolve_s(t, d + 1, s, depth)
            } else if d < 10 {
                if depth == 0 {
                    (Err(depth_exceeded(name)), s)
                } else {
                    eval_text_s(t, s, (depth - 1) as nat)
                }
            } else {
                (Ok(0), s)
            },
        }
    }
}

/// Evaluating arithmetic text: quoted associative subscripts become
/// placeholders, the text is scanned and checked, blank text is 0, and
/// the parsed expression is evaluated.
pub open spec fn eval_text_s(text: Seq<char>, s: StoreView, depth: nat) -> (Outcome, StoreView)
    decreases depth, 14int, ArithExpr::Literal(0),
{
    let (prepped, phs) = substitute_from(encode_utf8(text), 0, assoc_names(s.vars), 0);
    match strip_from(encode_utf8(prepped), 0, s.strict) {
        Err(m) => (Err(m), s),
        Ok(st) => if all_blank(st) {
            (Ok(0), s)
        } else {
            match arith_parse(st) {
                Err(m) => (Err("arithmetic: syntax error in expression: "@ + m), s),
                Ok(ast) => if wf_expr(ast) {
                    eval_s(ast, s, phs, depth)
                } else {
                    (Err(syntax_error()), s)
                },
            }
        },
    }
}

/// Writing `v` to what a target names: a variable is assigned its decimal
/// text; an associative element by its key text; an indexed element by
/// its evaluated index.
pub open spec fn write_s(t: ArithTarget, v: i64, s: StoreView, phs: Seq<(Seq<char>, Seq<char>)>, depth: nat) -> (
    Result<(), Seq<char>>,
    StoreView,
)
    decreases depth, 13int, t,
{
    match t {
        ArithTarget::Variable(name) => (Ok(()), set_variable_s(s, name@, decimal(v as int))),
        ArithTarget::ArrayElement(name, idx) => if lookup_var(s.vars, name@) matches Some(ValView::Assoc(_)) {
            (Ok(()), set_key_s(s, name@, assoc_key(*idx, phs), decimal(v as int)))
        } else {
            let (r, s1) = eval_s(*idx, s, phs, depth);
            match r {
                Err(m) => (Err(m), s1),
                Ok(i) => indexed_write_s(name@, i, v, s1),
            }
        },
    }
}

/// Writing element `i` of an indexed array: a negative index counts back
/// from one past the highest index (a scalar's is 0); no such index, or
/// one that stays negative, is a bad subscript.
pub open spec fn indexed_write_s(name: Seq<char>, i: i64, v: i64, s: StoreView) -> (Result<(), Seq<char>>, StoreView) {
    if i >= 0 {
        (Ok(()), set_element_s(s, name, i as u64, decimal(v as int)))
    } else {
        let top: Option<int> = match lookup_var(s.vars, name) {
            Some(ValView::Indexed(es)) => if es.len() > 0 {
                Some(es.last().0 as int)
            } else {
                None
            },
            Some(ValView::Scalar(_)) => Some(0),
            _ => None,
        };
        match top {
            Some(m) => if m + 1 + i >= 0 {
                (Ok(()), set_element_s(s, name, (m + 1 + i) as u64, decimal(v as int)))
            } else {
                (Err(name + ": bad array subscript"@), s)
            },
            None => (Err(name + ": bad array subscript"@), s),
        }
    }
}

// ── The parser, behind a trusted item ─────────────────────────────

#[verifier::external_type_specification]
#[verifier::external_body]
pub struct ExBrushArithmeticExpr(brush_parser::ast::ArithmeticExpr);

#[verifier::external_type_specification]
#[verifier::external_body]
pub struct ExBrushArithmeticTarget(brush_parser::ast::ArithmeticTarget);

#[verifier::external_type_specification]
#[verifier::external_body]
pub struct ExBrushBinaryOperator(brush_parser::ast::BinaryOperator);

#[verifier::external_type_specification]
#[verifier::external_body]
pub struct ExBrushUnaryOperator(brush_parser::ast::UnaryOperator);

#[verifier::external_type_specification]
#[verifier::external_body]
pub struct ExBrushUnaryAssignmentOperator(brush_parser::ast::UnaryAssignmentOperator);

/// Calls `brush_parser::arithmetic::parse` on `text`. The contract claims
/// only that the outcome is a function of the text alone (the parser is
/// a pure grammar; its results are cached by input), named
/// `arith_parse`: the expression, converted variant by variant to the
/// library's own, or the parse error's message.
#[verifier::external_body]
pub(crate) fn parse_arithmetic(text: &str) -> (r: Result<ArithExpr, String>)
    ensures
        parse_view(r) == arith_parse(text@),
{
    match brush_parser::arithmetic::parse(text) {
        Ok(ast) => Ok(from_brush_expr(&ast)),
        Err(e) => Err(format!("{e}")),
    }
}

/// Converts a parsed expression, variant by variant (the assignments in
/// `from_brush_assign`).
#[verifier::external_body]
fn from_brush_expr(e: &brush::ArithmeticExpr) -> ArithExpr {
    match e {
        brush::ArithmeticExpr::Literal(n) => ArithExpr::Literal(*n),
        brush::ArithmeticExpr::Reference(t) => ArithExpr::Reference(from_brush_target(t)),
        brush::ArithmeticExpr::UnaryOp(op, a) => ArithExpr::UnaryOp(from_brush_unary(op), Box::new(from_brush_expr(a))),
        brush::ArithmeticExpr::BinaryOp(op, a, b) => {
            ArithExpr::BinaryOp(from_brush_binary(op), Box::new(from_brush_expr(a)), Box::new(from_brush_expr(b)))
        },
        brush::ArithmeticExpr::Conditional(c, a, b) => {
            ArithExpr::Conditional(Box::new(from_brush_expr(c)), Box::new(from_brush_expr(a)), Box::new(from_brush_expr(b)))
        },
        other => from_brush_assign(other),
    }
}

/// Converts the assignment variants of a parsed expression.
#[verifier::external_body]
fn from_brush_assign(e: &brush::ArithmeticExpr) -> ArithExpr {
    match e {
        brush::ArithmeticExpr::Assignment(t, a) => ArithExpr::Assignment(from_brush_target(t), Box::new(from_brush_expr(a))),
        brush::ArithmeticExpr::BinaryAssignment(op, t, a) => {
            ArithExpr::BinaryAssignment(from_brush_binary(op), from_brush_target(t), Box::new(from_brush_expr(a)))
        },
        brush::ArithmeticExpr::UnaryAssignment(op, t) => ArithExpr::UnaryAssignment(from_brush_step(op), from_brush_target(t)),
        other => from_brush_expr(other),
    }
}

/// Converts a target, variant by variant.
#[verifier::external_body]
fn from_brush_target(t: &brush::ArithmeticTarget) -> ArithTarget {
    match t {
        brush::ArithmeticTarget::Variable(n) => ArithTarget::Variable(n.clone()),
        brush::ArithmeticTarget::ArrayElement(n, i) => ArithTarget::ArrayElement(n.clone(), Box::new(from_brush_expr(i))),
    }
}

/// Converts a unary operator, variant by variant.
#[verifier::external_body]
fn from_brush_unary(op: &brush::UnaryOperator) -> ArithUnaryOp {
    match op {
        brush::UnaryOperator::UnaryPlus => ArithUnaryOp::UnaryPlus,
        brush::UnaryOperator::UnaryMinus => ArithUnaryOp::UnaryMinus,
        brush::UnaryOperator::BitwiseNot => ArithUnaryOp::BitwiseNot,
        brush::UnaryOperator::LogicalNot => ArithUnaryOp::LogicalNot,
    }
}

/// Converts an increment or decrement operator, variant by variant.
#[verifier::external_body]
fn from_brush_step(op: &brush::UnaryAssignmentOperator) -> ArithStepOp {
    match op {
        brush::UnaryAssignmentOperator::PrefixIncrement => ArithStepOp::PrefixIncrement,
        brush::UnaryAssignmentOperator::PrefixDecrement => ArithStepOp::PrefixDecrement,
        brush::UnaryAssignmentOperator::PostfixIncrement => ArithStepOp::PostfixIncrement,
        brush::UnaryAssignmentOperator::PostfixDecrement => ArithStepOp::PostfixDecrement,
    }
}

/// Converts a binary operator, variant by variant (the rest in
/// `from_brush_compare`).
#[verifier::external_body]
fn from_brush_binary(op: &brush::BinaryOperator) -> ArithBinaryOp {
    match op {
        brush::BinaryOperator::Power => ArithBinaryOp::Power,
        brush::BinaryOperator::Multiply => ArithBinaryOp::Multiply,
        brush::BinaryOperator::Divide => ArithBinaryOp::Divide,
        brush::BinaryOperator::Modulo => ArithBinaryOp::Modulo,
        brush::BinaryOperator::Comma => ArithBinaryOp::Comma,
        brush::BinaryOperator::Add => ArithBinaryOp::Add,
        brush::BinaryOperator::Subtract => ArithBinaryOp::Subtract,
        brush::BinaryOperator::ShiftLeft => ArithBinaryOp::ShiftLeft,
        brush::BinaryOperator::ShiftRight => ArithBinaryOp::ShiftRight,
        brush::BinaryOperator::LogicalAnd => ArithBinaryOp::LogicalAnd,
        brush::BinaryOperator::LogicalOr => ArithBinaryOp::LogicalOr,
        other => from_brush_compare(other),
    }
}

/// Converts the comparison and bitwise operators, variant by variant.
#[verifier::external_body]
fn from_brush_compare(op: &brush::BinaryOperator) -> ArithBinaryOp {
    match op {
        brush::BinaryOperator::LessThan => ArithBinaryOp::LessThan,
        brush::BinaryOperator::LessThanOrEqualTo => ArithBinaryOp::LessThanOrEqualTo,
        brush::BinaryOperator::GreaterThan => ArithBinaryOp::GreaterThan,
        brush::BinaryOperator::GreaterThanOrEqualTo => ArithBinaryOp::GreaterThanOrEqualTo,
        brush::BinaryOperator::Equals => ArithBinaryOp::Equals,
        brush::BinaryOperator::NotEquals => ArithBinaryOp::NotEquals,
        brush::BinaryOperator::BitwiseAnd => ArithBinaryOp::BitwiseAnd,
        brush::BinaryOperator::BitwiseXor => ArithBinaryOp::BitwiseXor,
        brush::BinaryOperator::BitwiseOr => ArithBinaryOp::BitwiseOr,
        other => from_brush_binary(other),
    }
}

// ── Store operations ───────────────────────────────────────────────

/// Equal text.
fn same_text(a: &str, b: &str) -> (r: bool)
    ensures
        r == (a@ == b@),
{
    let x = chars_of(a);
    let y = chars_of(b);
    compare_chars(&x, &y) == 0
}

/// Where `k` first occurs among the names of `es`: at `i`, or nowhere
/// (`es.len()`).
pub open spec fn first_at<V>(es: Seq<(Seq<char>, V)>, k: Seq<char>, i: int) -> bool {
    &&& 0 <= i <= es.len()
    &&& forall|j: int| 0 <= j < i ==> (#[trigger] es[j]).0 != k
    &&& i < es.len() ==> es[i].0 == k
}

pub proof fn lemma_first_at<V>(es: Seq<(Seq<char>, V)>, k: Seq<char>, i: int, v: V)
    requires
        first_at(es, k, i),
    ensures
        first_value(es, k) == if i < es.len() {
            Some(es[i].1)
        } else {
            None
        },
        put_first(es, k, v) == if i < es.len() {
            es.update(i, (k, v))
        } else {
            es.push((k, v))
        },
    decreases es.len(),
{
    if es.len() > 0 && i > 0 {
        assert(es[0].0 != k);
        assert forall|j: int| 0 <= j < i - 1 implies (#[trigger] es.drop_first()[j]).0 != k by {
            assert(es.drop_first()[j] == es[j + 1]);
        }
        lemma_first_at(es.drop_first(), k, i - 1, v);
        if i < es.len() {
            assert(put_first(es, k, v) =~= es.update(i, (k, v)));
        } else {
            assert(put_first(es, k, v) =~= es.push((k, v)));
        }
    } else if es.len() == 0 {
        assert(put_first(es, k, v) =~= es.push((k, v)));
    }
}

/// Finds the first entry called `k`.
fn find_key<V>(es: &Vec<(String, V)>, k: &str) -> (r: usize)
    ensures
        r <= es@.len(),
        forall|j: int| 0 <= j < r ==> (#[trigger] es@[j]).0@ != k@,
        r < es@.len() ==> es@[r as int].0@ == k@,
{
    let mut i: usize = 0;
    while i < es.len()
        invariant
            i <= es@.len(),
            forall|j: int| 0 <= j < i ==> (#[trigger] es@[j]).0@ != k@,
        decreases es.len() - i,
    {
        if same_text(es[i].0.as_str(), k) {
            return i;
        }
        i = i + 1;
    }
    i
}

pub open spec fn vars_view(v: Seq<(String, VarValue)>) -> Seq<(Seq<char>, ValView)> {
    v.map_values(|e: (String, VarValue)| (e.0@, val_view(e.1)))
}

pub open spec fn assoc_view(v: Seq<(String, String)>) -> Seq<(Seq<char>, Seq<char>)> {
    v.map_values(|e: (String, String)| (e.0@, e.1@))
}

pub open spec fn indexed_view(v: Seq<(u64, String)>) -> Seq<(u64, Seq<char>)> {
    v.map_values(|e: (u64, String)| (e.0, e.1@))
}

/// The value at key `k`.
fn assoc_get(es: &Vec<(String, String)>, k: &str) -> (r: Option<String>)
    ensures
        match r {
            Some(t) => key_get(assoc_view(es@), k@) == Some(t@),
            None => key_get(assoc_view(es@), k@) is None,
        },
{
    let i = find_key(es, k);
    proof {
        let m = assoc_view(es@);
        assert forall|j: int| 0 <= j < i implies (#[trigger] m[j]).0 != k@ by {
            assert(m[j].0 == es@[j].0@);
        }
        lemma_first_at(m, k@, i as int, k@);
    }
    if i < es.len() {
        Some(es[i].1.clone())
    } else {
        None
    }
}

/// Sets key `k` to `t`.
fn assoc_put(es: &mut Vec<(String, String)>, k: &str, t: String)
    ensures
        assoc_view(final(es)@) == key_put(assoc_view(old(es)@), k@, t@),
{
    let i = find_key(es, k);
    let ghost m = assoc_view(es@);
    proof {
        assert forall|j: int| 0 <= j < i implies (#[trigger] m[j]).0 != k@ by {
            assert(m[j].0 == es@[j].0@);
        }
        lemma_first_at(m, k@, i as int, t@);
    }
    if i < es.len() {
        es.set(i, (k.to_owned(), t));
        assert(assoc_view(es@) =~= m.update(i as int, (k@, t@)));
    } else {
        es.push((k.to_owned(), t));
        assert(assoc_view(es@) =~= m.push((k@, t@)));
    }
}

/// The element at index `i`.
fn indexed_get(es: &Vec<(u64, String)>, i: u64) -> (r: Option<String>)
    ensures
        match r {
            Some(t) => index_get(indexed_view(es@), i) == Some(t@),
            None => index_get(indexed_view(es@), i) is None,
        },
{
    let ghost m = indexed_view(es@);
    let mut k: usize = 0;
    assert(m.skip(0) =~= m);
    while k < es.len()
        invariant
            k <= es@.len(),
            m == indexed_view(es@),
            index_get(m, i) == index_get(m.skip(k as int), i),
        decreases es.len() - k,
    {
        proof {
            assert(m.skip(k as int)[0] == m[k as int]);
            assert(m.skip(k as int).drop_first() =~= m.skip(k + 1));
        }
        if es[k].0 == i {
            return Some(es[k].1.clone());
        }
        k = k + 1;
    }
    None
}

/// Sets element `i` to `t`, in index order.
fn indexed_put(es: &mut Vec<(u64, String)>, i: u64, t: String)
    ensures
        indexed_view(final(es)@) == index_put(indexed_view(old(es)@), i, t@),
{
    let ghost m = indexed_view(es@);
    let mut k: usize = 0;
    assert(m.skip(0) =~= m);
    assert(m.take(0) + m =~= m);
    while k < es.len() && es[k].0 < i
        invariant
            k <= es@.len(),
            m == indexed_view(es@),
            index_put(m, i, t@) == m.take(k as int) + index_put(m.skip(k as int), i, t@),
        decreases es.len() - k,
    {
        proof {
            let rest = m.skip(k as int);
            assert(rest[0] == m[k as int]);
            assert(rest.drop_first() =~= m.skip(k + 1));
            assert(m.take(k + 1) =~= m.take(k as int) + seq![m[k as int]]);
        }
        k = k + 1;
    }
    proof {
        assert(m.skip(k as int).len() == m.len() - k);
        if k < m.len() {
            assert(m.skip(k as int)[0] == m[k as int]);
        }
    }
    if k < es.len() && es[k].0 == i {
        es.set(k, (i, t));
        proof {
            assert(index_put(m.skip(k as int), i, t@) =~= m.skip(k as int).update(0, (i, t@)));
            assert(indexed_view(es@) =~= m.take(k as int) + m.skip(k as int).update(0, (i, t@)));
        }
    } else {
        es.insert(k, (i, t));
        proof {
            assert(index_put(m.skip(k as int), i, t@) =~= seq![(i, t@)] + m.skip(k as int));
            assert(indexed_view(es@) =~= m.take(k as int) + (seq![(i, t@)] + m.skip(k as int)));
        }
    }
}

/// The store with variable `name` set to `v` where `find_key` put it at
/// `i` (the old entry removed there first).
proof fn lemma_store_put(before: Seq<(String, VarValue)>, mid: Seq<(String, VarValue)>, after: Seq<(String, VarValue)>, i: int, name: Seq<char>, v: VarValue)
    requires
        first_at(vars_view(before), name, i),
        i < before.len() ==> mid == before.remove(i) && after == mid.insert(i, (after[i].0, v)) && after[i].0@ == name,
        i == before.len() ==> after == before.push((after[i].0, v)) && after[i].0@ == name,
    ensures
        vars_view(after) == put_var(vars_view(before), name, val_view(v)),
{
    lemma_first_at(vars_view(before), name, i, val_view(v));
    if i < before.len() {
        assert(vars_view(after) =~= vars_view(before).update(i, (name, val_view(v))));
    } else {
        assert(vars_view(after) =~= vars_view(before).push((name, val_view(v))));
    }
}

/// Finds `name` among the variables, stating what that means of the view.
fn find_var(store: &VarStore, name: &str) -> (i: usize)
    ensures
        first_at(vars_view(store.vars@), name@, i as int),
        lookup_var(store@.vars, name@) == if i < store.vars@.len() {
            Some(val_view(store.vars@[i as int].1))
        } else {
            None
        },
{
    let i = find_key(&store.vars, name);
    proof {
        let m = vars_view(store.vars@);
        assert forall|j: int| 0 <= j < i implies (#[trigger] m[j]).0 != name@ by {
            assert(m[j].0 == store.vars@[j].0@);
        }
        lemma_first_at(m, name@, i as int, ValView::Scalar(seq![]));
    }
    i
}

/// Assigns the text `t` to the variable `name`.
pub fn set_variable(store: &mut VarStore, name: &str, t: String)
    ensures
        final(store)@ == set_variable_s(old(store)@, name@, t@),
{
    let i = find_var(store, name);
    let ghost before = store.vars@;
    if i < store.vars.len() {
        let (_, v) = store.vars.remove(i);
        let ghost mid = store.vars@;
        let nv = match v {
            VarValue::Indexed(mut es) => {
                indexed_put(&mut es, 0, t);
                VarValue::Indexed(es)
            },
            VarValue::Assoc(mut es) => {
                proof {
                    reveal_strlit("0");
                }
                assoc_put(&mut es, "0", t);
                VarValue::Assoc(es)
            },
            VarValue::Scalar(_) => VarValue::Scalar(t),
        };
        store.vars.insert(i, (name.to_owned(), nv));
        proof {
            lemma_store_put(before, mid, store.vars@, i as int, name@, nv);
        }
    } else {
        store.vars.push((name.to_owned(), VarValue::Scalar(t)));
        proof {
            lemma_store_put(before, before, store.vars@, i as int, name@, VarValue::Scalar(t));
        }
    }
}

/// Sets element `i` of the array `name` to `t`.
fn set_element(store: &mut VarStore, name: &str, i: u64, t: String)
    ensures
        final(store)@ == set_element_s(old(store)@, name@, i, t@),
{
    let k = find_var(store, name);
    let ghost before = store.vars@;
    if k < store.vars.len() {
        let (_, v) = store.vars.remove(k);
        let ghost mid = store.vars@;
        let nv = match v {
            VarValue::Indexed(mut es) => {
                indexed_put(&mut es, i, t);
                VarValue::Indexed(es)
            },
            VarValue::Scalar(old) => {
                let mut es: Vec<(u64, String)> = Vec::new();
                es.push((0, old));
                proof {
                    assert(indexed_view(es@) =~= seq![(0u64, old@)]);
                }
                indexed_put(&mut es, i, t);
                VarValue::Indexed(es)
            },
            VarValue::Assoc(mut es) => {
                let mut key = String::new();
                push_digits(&mut key, i);
                proof {
                    assert(key@ =~= decimal(i as int));
                }
                assoc_put(&mut es, key.as_str(), t);
                VarValue::Assoc(es)
            },
        };
        store.vars.insert(k, (name.to_owned(), nv));
        proof {
            lemma_store_put(before, mid, store.vars@, k as int, name@, nv);
        }
    } else {
        let mut es: Vec<(u64, String)> = Vec::new();
        es.push((i, t));
        proof {
            assert(indexed_view(es@) =~= seq![(i, t@)]);
        }
        let nv = VarValue::Indexed(es);
        store.vars.push((name.to_owned(), nv));
        proof {
            lemma_store_put(before, before, store.vars@, k as int, name@, nv);
        }
    }
}

/// Sets key `k` of the associative array `name` to `t`.
fn set_key(store: &mut VarStore, name: &str, k: &str, t: String)
    ensures
        final(store)@ == set_key_s(old(store)@, name@, k@, t@),
{
    let i = find_var(store, name);
    let ghost before = store.vars@;
    if i < store.vars.len() {
        let (_, v) = store.vars.remove(i);
        let ghost mid = store.vars@;
        let nv = match v {
            VarValue::Assoc(mut es) => {
                assoc_put(&mut es, k, t);
                VarValue::Assoc(es)
            },
            _ => {
                let mut es: Vec<(String, String)> = Vec::new();
                es.push((k.to_owned(), t));
                proof {
                    assert(assoc_view(es@) =~= seq![(k@, t@)]);
                }
                VarValue::Assoc(es)
            },
        };
        store.vars.insert(i, (name.to_owned(), nv));
        proof {
            lemma_store_put(before, mid, store.vars@, i as int, name@, nv);
        }
    } else {
        let mut es: Vec<(String, String)> = Vec::new();
        es.push((k.to_owned(), t));
        proof {
            assert(assoc_view(es@) =~= seq![(k@, t@)]);
        }
        let nv = VarValue::Assoc(es);
        store.vars.push((name.to_owned(), nv));
        proof {
            lemma_store_put(before, before, store.vars@, i as int, name@, nv);
        }
    }
}

// ── Numbers in text ────────────────────────────────────────────────

proof fn lemma_digits_grow(s: Seq<char>, k: int)
    requires
        all_digits(s),
        0 <= k <= s.len(),
    ensures
        0 <= digits_value(s.take(k)) <= digits_value(s),
    decreases s.len() - k,
{
    if k < s.len() {
        lemma_digits_grow(s, k + 1);
        assert(s.take(k + 1).drop_last() =~= s.take(k));
        assert('0' <= s[k] <= '9');
        assert(s.take(k + 1).last() == s[k]);
    } else {
        assert(s.take(k) =~= s);
    }
    lemma_digits_nonneg(s.take(k));
}

proof fn lemma_digits_nonneg(s: Seq<char>)
    requires
        all_digits(s),
    ensures
        digits_value(s) >= 0,
    decreases s.len(),
{
    if s.len() > 0 {
        assert(all_digits(s.drop_last())) by {
            assert forall|i: int| 0 <= i < s.drop_last().len() implies '0' <= #[trigger] s.drop_last()[i] <= '9' by {
                assert(s.drop_last()[i] == s[i]);
            }
        }
        lemma_digits_nonneg(s.drop_last());
    }
}

/// The value of the digits `v[from..]` when it is at most `cap`.
fn capped_value(v: &Vec<char>, from: usize, cap: u64) -> (r: Option<u64>)
    requires
        from <= v@.len(),
        all_digits(v@.skip(from as int)),
        cap >= 9,
    ensures
        match r {
            Some(x) => x == digits_value(v@.skip(from as int)) && x <= cap,
            None => digits_value(v@.skip(from as int)) > cap,
        },
{
    let ghost body = v@.skip(from as int);
    let mut acc: u64 = 0;
    let mut k: usize = from;
    assert(body.take(0) =~= Seq::<char>::empty());
    while k < v.len()
        invariant
            from <= k <= v@.len(),
            body == v@.skip(from as int),
            all_digits(body),
            acc == digits_value(body.take(k - from)),
            acc <= cap,
            cap >= 9,
        decreases v.len() - k,
    {
        let c = v[k];
        proof {
            assert(body[k - from] == c);
            assert(body.take(k + 1 - from).drop_last() =~= body.take(k - from));
            assert(body.take(k + 1 - from).last() == c);
        }
        let d = (c as u32 - '0' as u32) as u64;
        if acc > (cap - d) / 10 {
            proof {
                assert(acc * 10 + d > cap) by (nonlinear_arith)
                    requires
                        acc > (cap - d) / 10,
                        d <= 9,
                        d <= cap,
                ;
                lemma_digits_grow(body, k + 1 - from);
            }
            return None;
        }
        proof {
            assert(acc * 10 + d <= cap) by (nonlinear_arith)
                requires
                    acc <= (cap - d) / 10,
                    d <= cap,
            ;
        }
        acc = acc * 10 + d;
        k = k + 1;
    }
    proof {
        assert(body.take(v@.len() - from) =~= body);
    }
    Some(acc)
}

/// Whether `v[from..]` is all decimal digits.
fn digits_from(v: &Vec<char>, from: usize) -> (b: bool)
    requires
        from <= v@.len(),
    ensures
        b == all_digits(v@.skip(from as int)),
{
    let mut k = from;
    while k < v.len()
        invariant
            from <= k <= v@.len(),
            forall|i: int| from <= i < k ==> '0' <= #[trigger] v@[i] <= '9',
        decreases v.len() - k,
    {
        if !('0' <= v[k] && v[k] <= '9') {
            proof {
                assert(v@.skip(from as int)[k - from] == v@[k as int]);
            }
            return false;
        }
        k = k + 1;
    }
    proof {
        assert forall|i: int| 0 <= i < v@.skip(from as int).len() implies '0' <= #[trigger] v@.skip(from as int)[i] <= '9' by {
            assert(v@.skip(from as int)[i] == v@[from + i]);
        }
    }
    true
}

/// `s` read as an `i64` the way `str::parse::<i64>` reads it.
fn parse_i64(s: &str) -> (r: Option<i64>)
    ensures
        r == parsed_i64(s@),
{
    let v = chars_of(s);
    let signed = v.len() > 0 && (v[0] == '-' || v[0] == '+');
    let neg = v.len() > 0 && v[0] == '-';
    let from: usize = if signed { 1 } else { 0 };
    proof {
        if signed {
            assert(v@.skip(1) =~= s@.drop_first());
        } else {
            assert(v@.skip(0) =~= s@);
        }
    }
    if from >= v.len() || !digits_from(&v, from) {
        return None;
    }
    let cap: u64 = if neg { 9223372036854775808u64 } else { 9223372036854775807u64 };
    match capped_value(&v, from, cap) {
        None => None,
        Some(x) => {
            if neg {
                if x == 9223372036854775808u64 {
                    Some(i64::MIN)
                } else {
                    Some(-(x as i64))
                }
            } else {
                Some(x as i64)
            }
        },
    }
}

/// `s` read as a `usize` the way `str::parse::<usize>` reads it.
fn parse_usize(s: &str) -> (r: Option<usize>)
    ensures
        r == parsed_usize(s@),
{
    let v = chars_of(s);
    let plus = v.len() > 0 && v[0] == '+';
    let from: usize = if plus { 1 } else { 0 };
    proof {
        if plus {
            assert(v@.skip(1) =~= s@.drop_first());
        } else {
            assert(v@.skip(0) =~= s@);
        }
    }
    if from >= v.len() || !digits_from(&v, from) {
        return None;
    }
    match capped_value(&v, from, usize::MAX as u64) {
        None => None,
        Some(x) => Some(x as usize),
    }
}

// ── Text helpers ───────────────────────────────────────────────────

/// Whether `t` reads as a variable name.
fn is_name_like(t: &str) -> (b: bool)
    ensures
        b == name_like(t@),
{
    let v = chars_of(t);
    if v.len() > 0 && '0' <= v[0] && v[0] <= '9' {
        return false;
    }
    let mut k: usize = 0;
    while k < v.len()
        invariant
            k <= v@.len(),
            v@ == t@,
            forall|i: int| 0 <= i < k ==> ('0' <= #[trigger] v@[i] <= '9' || 'a' <= v@[i] <= 'z' || 'A' <= v@[i] <= 'Z' || v@[i] == '_'),
        decreases v.len() - k,
    {
        let c = v[k];
        if !(('0' <= c && c <= '9') || ('a' <= c && c <= 'z') || ('A' <= c && c <= 'Z') || c == '_') {
            return false;
        }
        k = k + 1;
    }
    true
}

/// Whether `t` holds only blanks.
fn is_all_blank(t: &str) -> (b: bool)
    ensures
        b == all_blank(t@),
{
    let v = chars_of(t);
    let mut k: usize = 0;
    while k < v.len()
        invariant
            k <= v@.len(),
            v@ == t@,
            forall|i: int| 0 <= i < k ==> #[trigger] v@[i] == ' ' || v@[i] == '\t' || v@[i] == '\n',
        decreases v.len() - k,
    {
        let c = v[k];
        if !(c == ' ' || c == '\t' || c == '\n') {
            return false;
        }
        k = k + 1;
    }
    true
}

/// The name a scanner placeholder stands for.
fn map_name(name: &str) -> (r: String)
    ensures
        r@ == mapped_name(name@),
{
    proof {
        reveal_strlit("__RB_ARITH_HASH__");
        reveal_strlit("__RB_ARITH_QUESTION__");
        reveal_strlit("__RB_ARITH_POS_");
        reveal_strlit("__");
        reveal_strlit("#");
        reveal_strlit("?");
    }
    if same_text(name, "__RB_ARITH_HASH__") {
        return String::from_str("#");
    }
    if same_text(name, "__RB_ARITH_QUESTION__") {
        return String::from_str("?");
    }
    let v = chars_of(name);
    let pre = chars_of("__RB_ARITH_POS_");
    let n = v.len();
    if n >= 17 {
        let mut k: usize = 0;
        let mut ok = true;
        while k < 15
            invariant
                k <= 15,
                n == v@.len(),
                n >= 17,
                pre@ == "__RB_ARITH_POS_"@,
                pre@.len() == 15,
                ok == (forall|i: int| 0 <= i < k ==> #[trigger] v@[i] == pre@[i]),
            decreases 15 - k,
        {
            if v[k] != pre[k] {
                ok = false;
            }
            k = k + 1;
        }
        if ok && v[n - 1] == '_' && v[n - 2] == '_' {
            let mut out = String::new();
            let mut j: usize = 15;
            while j < n - 2
                invariant
                    15 <= j <= n - 2,
                    n == v@.len(),
                    out@ == v@.subrange(15, j as int),
                decreases n - 2 - j,
            {
                crate::text::push_char(&mut out, v[j]);
                proof {
                    assert(out@ =~= v@.subrange(15, j + 1));
                }
                j = j + 1;
            }
            proof {
                assert("__RB_ARITH_POS_"@.is_prefix_of(name@)) by {
                    assert("__RB_ARITH_POS_"@ =~= name@.subrange(0, 15));
                }
                assert("__"@.is_suffix_of(name@.skip(15))) by {
                    assert("__"@ =~= name@.skip(15).subrange(name@.skip(15).len() - 2, name@.skip(15).len() as int));
                }
            }
            return out;
        }
        proof {
            if "__RB_ARITH_POS_"@.is_prefix_of(name@) && "__"@.is_suffix_of(name@.skip(15)) {
                assert forall|i: int| 0 <= i < 15 implies #[trigger] v@[i] == pre@[i] by {
                    assert(name@.subrange(0, 15)[i] == name@[i]);
                }
                let sk = name@.skip(15);
                assert(sk.subrange(sk.len() - 2, sk.len() as int)[1] == v@[n - 1]);
                assert(sk.subrange(sk.len() - 2, sk.len() as int)[0] == v@[n - 2]);
            }
        }
    } else {
        proof {
            if "__RB_ARITH_POS_"@.is_prefix_of(name@) && "__"@.is_suffix_of(name@.skip(15)) {
                assert(name@.skip(15).len() >= 2);
            }
        }
    }
    let mut out = String::new();
    push_str(&mut out, name);
    out
}

/// The names of the associative arrays, in store order.
fn assoc_array_names(store: &VarStore) -> (r: Vec<String>)
    ensures
        strings_view(r@) == assoc_names(store@.vars),
{
    let ghost m = store@.vars;
    let mut out: Vec<String> = Vec::new();
    let mut k: usize = store.vars.len();
    assert(m.skip(k as int) =~= Seq::<(Seq<char>, ValView)>::empty());
    while k > 0
        invariant
            k <= store.vars@.len(),
            m == store@.vars,
            strings_view(out@) == assoc_names(m.skip(k as int)),
        decreases k,
    {
        k = k - 1;
        let ghost rest = m.skip(k + 1);
        proof {
            assert(m.skip(k as int).drop_first() =~= rest);
            assert(m.skip(k as int)[0] == m[k as int]);
            assert(m[k as int] == (store.vars@[k as int].0@, val_view(store.vars@[k as int].1)));
        }
        let is_assoc = match &store.vars[k].1 {
            VarValue::Assoc(_) => true,
            _ => false,
        };
        if is_assoc {
            let ghost before = strings_view(out@);
            out.insert(0, store.vars[k].0.clone());
            proof {
                assert(strings_view(out@) =~= seq![m[k as int].0] + before);
            }
        }
    }
    proof {
        assert(m.skip(0) =~= m);
    }
    out
}

/// The key text recorded for a placeholder name.
fn placeholder_key(phs: &Vec<(String, String)>, n: &str) -> (r: Option<String>)
    ensures
        match r {
            Some(k) => pair_lookup(pairs_view(phs@), n@) == Some(k@),
            None => pair_lookup(pairs_view(phs@), n@) is None,
        },
{
    let i = find_key(phs, n);
    proof {
        let m = pairs_view(phs@);
        assert forall|j: int| 0 <= j < i implies (#[trigger] m[j]).0 != n@ by {
            assert(m[j].0 == phs@[j].0@);
        }
        lemma_pair_lookup(m, n@, i as int);
    }
    if i < phs.len() {
        Some(phs[i].1.clone())
    } else {
        None
    }
}

proof fn lemma_pair_lookup(m: Seq<(Seq<char>, Seq<char>)>, n: Seq<char>, i: int)
    requires
        first_at(m, n, i),
    ensures
        pair_lookup(m, n) == if i < m.len() {
            Some(m[i].1)
        } else {
            None
        },
    decreases m.len(),
{
    if m.len() > 0 && i > 0 {
        assert forall|j: int| 0 <= j < i - 1 implies (#[trigger] m.drop_first()[j]).0 != n by {
            assert(m.drop_first()[j] == m[j + 1]);
        }
        assert(m[0].0 != n);
        lemma_pair_lookup(m.drop_first(), n, i - 1);
    }
}

/// The key text of an associative subscript.
fn assoc_key_of(idx: &ArithExpr, phs: &Vec<(String, String)>) -> (r: String)
    ensures
        r@ == assoc_key(*idx, pairs_view(phs@)),
{
    match idx {
        ArithExpr::Reference(ArithTarget::Variable(n)) => match placeholder_key(phs, n.as_str()) {
            Some(k) => k,
            None => n.clone(),
        },
        ArithExpr::Literal(n) => {
            let mut out = String::new();
            push_decimal(&mut out, *n);
            proof {
                assert(out@ =~= decimal(*n as int));
            }
            out
        },
        _ => render_index_for_message(idx),
    }
}

// ── Evaluation ─────────────────────────────────────────────────────

pub open spec fn outcome(r: Result<i64, RustBashError>) -> Outcome {
    match r {
        Ok(v) => Ok(v),
        Err(RustBashError::Execution(m)) => Err(m@),
    }
}

pub open spec fn unit_outcome(r: Result<(), RustBashError>) -> Result<(), Seq<char>> {
    match r {
        Ok(_) => Ok(()),
        Err(RustBashError::Execution(m)) => Err(m@),
    }
}

fn fail(m: String) -> (r: Result<i64, RustBashError>)
    ensures
        outcome(r) == Err::<i64, Seq<char>>(m@),
{
    Err(RustBashError::Execution(m))
}

/// `a`, then `b`.
fn text2(a: &str, b: &str) -> (r: String)
    ensures
        r@ == a@ + b@,
{
    let mut out = String::new();
    push_str(&mut out, a);
    push_str(&mut out, b);
    out
}

/// `name[key]`.
fn subscript_text(name: &str, key: &str) -> (r: String)
    ensures
        r@ == name@ + "["@ + key@ + "]"@,
{
    proof {
        reveal_strlit("[");
        reveal_strlit("]");
    }
    let mut out = String::new();
    push_str(&mut out, name);
    push_str(&mut out, "[");
    push_str(&mut out, key);
    push_str(&mut out, "]");
    out
}

fn decimal_text(n: i64) -> (r: String)
    ensures
        r@ == decimal(n as int),
{
    let mut out = String::new();
    push_decimal(&mut out, n);
    assert(out@ =~= decimal(n as int));
    out
}

fn is_computed_op(op: &ArithBinaryOp) -> (b: bool)
    ensures
        b == is_computed(*op),
{
    match op {
        ArithBinaryOp::Comma | ArithBinaryOp::LogicalOr | ArithBinaryOp::LogicalAnd => false,
        _ => true,
    }
}

/// Whether every compound assignment in `e` computes a value.
fn check_expr(e: &ArithExpr) -> (b: bool)
    ensures
        b == wf_expr(*e),
    decreases *e,
{
    match e {
        ArithExpr::Literal(_) => true,
        ArithExpr::Reference(t) => check_target(t),
        ArithExpr::UnaryOp(_, a) => check_expr(a),
        ArithExpr::BinaryOp(_, a, b) => check_expr(a) && check_expr(b),
        ArithExpr::Conditional(a, b, c) => check_expr(a) && check_expr(b) && check_expr(c),
        ArithExpr::Assignment(t, a) => check_target(t) && check_expr(a),
        ArithExpr::BinaryAssignment(op, t, a) => is_computed_op(op) && check_target(t) && check_expr(a),
        ArithExpr::UnaryAssignment(_, t) => check_target(t),
    }
}

fn check_target(t: &ArithTarget) -> (b: bool)
    ensures
        b == wf_target(*t),
    decreases *t,
{
    match t {
        ArithTarget::Variable(_) => true,
        ArithTarget::ArrayElement(_, i) => check_expr(i),
    }
}

/// Evaluates `e` in `store`: the outcome and the store after it are
/// exactly `eval_s`.
pub fn eval(e: &ArithExpr, store: &mut VarStore, phs: &Vec<(String, String)>, depth: u32) -> (r: Result<i64, RustBashError>)
    requires
        wf_expr(*e),
    ensures
        (outcome(r), final(store)@) == eval_s(*e, old(store)@, pairs_view(phs@), depth as nat),
    decreases depth, 13int, *e,
{
    match e {
        ArithExpr::Literal(n) => Ok(*n),
        ArithExpr::Reference(t) => read_target(t, store, phs, depth),
        ArithExpr::UnaryOp(op, a) => {
            let v = match eval(a, store, phs, depth) {
                Ok(v) => v,
                Err(m) => {
                    return Err(m);
                },
            };
            Ok(
                match op {
                    ArithUnaryOp::LogicalNot => if v == 0 {
                        1
                    } else {
                        0
                    },
                    ArithUnaryOp::BitwiseNot => !v,
                    ArithUnaryOp::UnaryPlus => v,
                    ArithUnaryOp::UnaryMinus => if v == i64::MIN {
                        i64::MIN
                    } else {
                        -v
                    },
                },
            )
        },
        ArithExpr::BinaryOp(op, a, b) => {
            let l = match eval(a, store, phs, depth) {
                Ok(v) => v,
                Err(m) => {
                    return Err(m);
                },
            };
            match op {
                ArithBinaryOp::Comma => {
                    return eval(b, store, phs, depth);
                },
                ArithBinaryOp::LogicalOr => {
                    if l != 0 {
                        return Ok(1);
                    }
                },
                ArithBinaryOp::LogicalAnd => {
                    if l == 0 {
                        return Ok(0);
                    }
                },
                _ => {},
            }
            let w = match eval(b, store, phs, depth) {
                Ok(v) => v,
                Err(m) => {
                    return Err(m);
                },
            };
            match op {
                ArithBinaryOp::LogicalOr | ArithBinaryOp::LogicalAnd => Ok(if w != 0 { 1 } else { 0 }),
                _ => apply_binary_arith(op, l, w),
            }
        },
        ArithExpr::Conditional(c, a, b) => {
            let v = match eval(c, store, phs, depth) {
                Ok(v) => v,
                Err(m) => {
                    return Err(m);
                },
            };
            if v != 0 {
                eval(a, store, phs, depth)
            } else {
                eval(b, store, phs, depth)
            }
        },
        ArithExpr::Assignment(t, a) => {
            let v = match eval(a, store, phs, depth) {
                Ok(v) => v,
                Err(m) => {
                    return Err(m);
                },
            };
            match write_target(t, v, store, phs, depth) {
                Ok(()) => Ok(v),
                Err(m) => Err(m),
            }
        },
        ArithExpr::BinaryAssignment(op, t, a) => {
            let rv = match eval(a, store, phs, depth) {
                Ok(v) => v,
                Err(m) => {
                    return Err(m);
                },
            };
            let lv = match read_target(t, store, phs, depth) {
                Ok(v) => v,
                Err(m) => {
                    return Err(m);
                },
            };
            let v = match apply_binary_arith(op, lv, rv) {
                Ok(v) => v,
                Err(m) => {
                    return Err(m);
                },
            };
            match write_target(t, v, store, phs, depth) {
                Ok(()) => Ok(v),
                Err(m) => Err(m),
            }
        },
        ArithExpr::UnaryAssignment(op, t) => {
            let old = match read_target(t, store, phs, depth) {
                Ok(v) => v,
                Err(m) => {
                    return Err(m);
                },
            };
            let new = match op {
                ArithStepOp::PrefixIncrement | ArithStepOp::PostfixIncrement => old.wrapping_add(1),
                _ => old.wrapping_add(-1),
            };
            match write_target(t, new, store, phs, depth) {
                Ok(()) => Ok(
                    match op {
                        ArithStepOp::PrefixIncrement | ArithStepOp::PrefixDecrement => new,
                        _ => old,
                    },
                ),
                Err(m) => Err(m),
            }
        },
    }
}

/// Reads what a target names: exactly `read_s`.
fn read_target(t: &ArithTarget, store: &mut VarStore, phs: &Vec<(String, String)>, depth: u32) -> (r: Result<i64, RustBashError>)
    requires
        wf_target(*t),
    ensures
        (outcome(r), final(store)@) == read_s(*t, old(store)@, pairs_view(phs@), depth as nat),
    decreases depth, 13int, *t,
{
    match t {
        ArithTarget::Variable(name) => {
            let mapped = map_name(name.as_str());
            read_var(mapped.as_str(), store, depth)
        },
        ArithTarget::ArrayElement(name, idx) => {
            let k = find_var(store, name.as_str());
            let is_assoc = k < store.vars.len() && match &store.vars[k].1 {
                VarValue::Assoc(_) => true,
                _ => false,
            };
            if is_assoc {
                let key = assoc_key_of(idx, phs);
                let val = match &store.vars[k].1 {
                    VarValue::Assoc(es) => match assoc_get(es, key.as_str()) {
                        Some(t) => t,
                        None => String::new(),
                    },
                    _ => String::new(),
                };
                let ctx = subscript_text(name.as_str(), key.as_str());
                return text_value(val.as_str(), store, depth, ctx.as_str());
            }
            if store.nounset && k >= store.vars.len() {
                proof {
                    reveal_strlit("]: unbound variable");
                    reveal_strlit("[");
                }
                let mut m = String::new();
                push_str(&mut m, name.as_str());
                push_str(&mut m, "[");
                let shown = render_index_for_message(idx);
                push_str(&mut m, shown.as_str());
                push_str(&mut m, "]: unbound variable");
                return fail(m);
            }
            let i = match eval(idx, store, phs, depth) {
                Ok(v) => v,
                Err(m) => {
                    return Err(m);
                },
            };
            indexed_read(name.as_str(), i, store, depth)
        },
    }
}

/// Reads element `i` of an indexed array (or a scalar): exactly
/// `indexed_read_s`.
fn indexed_read(name: &str, i: i64, store: &mut VarStore, depth: u32) -> (r: Result<i64, RustBashError>)
    ensures
        (outcome(r), final(store)@) == indexed_read_s(name@, i, old(store)@, depth as nat),
    decreases depth, 1int, ArithExpr::Literal(0),
{
    let idx_text = decimal_text(i);
    let ctx = subscript_text(name, idx_text.as_str());
    let k = find_var(store, name);
    if k >= store.vars.len() {
        return Ok(0);
    }
    let val = match &store.vars[k].1 {
        VarValue::Indexed(es) => {
            let top: i128 = if es.len() > 0 {
                es[es.len() - 1].0 as i128
            } else {
                0
            };
            let at: i128 = if i < 0 {
                top + 1 + i as i128
            } else {
                i as i128
            };
            if at < 0 {
                return Ok(0);
            }
            proof {
                assert(es@.len() > 0 ==> indexed_view(es@).last().0 == es@.last().0) by {
                    if es@.len() > 0 {
                        assert(indexed_view(es@)[es@.len() - 1] == (es@[es@.len() - 1].0, es@[es@.len() - 1].1@));
                    }
                }
            }
            if at > u64::MAX as i128 {
                String::new()
            } else {
                match indexed_get(es, at as u64) {
                    Some(t) => t,
                    None => String::new(),
                }
            }
        },
        VarValue::Scalar(t) => if i == 0 || i == -1 {
            t.clone()
        } else {
            String::new()
        },
        VarValue::Assoc(_) => String::new(),
    };
    text_value(val.as_str(), store, depth, ctx.as_str())
}

/// A stored string as a number: exactly `text_value_s`.
fn text_value(t: &str, store: &mut VarStore, depth: u32, ctx: &str) -> (r: Result<i64, RustBashError>)
    ensures
        (outcome(r), final(store)@) == text_value_s(t@, old(store)@, depth as nat, ctx@),
    decreases depth, 0int, ArithExpr::Literal(0),
{
    let v = chars_of(t);
    if v.len() == 0 {
        return Ok(0);
    }
    match parse_i64(t) {
        Some(n) => Ok(n),
        None => if depth == 0 {
            proof {
                reveal_strlit(": recursive evaluation depth exceeded");
            }
            fail(text2(ctx, ": recursive evaluation depth exceeded"))
        } else {
            eval_text(t, store, depth - 1)
        },
    }
}

/// Reads a variable by name: exactly `read_var_s`.
fn read_var(name: &str, store: &mut VarStore, depth: u32) -> (r: Result<i64, RustBashError>)
    ensures
        (outcome(r), final(store)@) == read_var_s(name@, old(store)@, depth as nat),
    decreases depth, 12int, ArithExpr::Literal(0),
{
    proof {
        reveal_strlit("#");
        reveal_strlit("?");
        reveal_strlit(": unbound variable");
    }
    if same_text(name, "#") {
        return Ok(store.positional.len() as i64);
    }
    if same_text(name, "?") {
        return Ok(store.last_exit);
    }
    match parse_usize(name) {
        Some(n) => {
            if n == 0 {
                return Ok(
                    match parse_i64(store.shell_name.as_str()) {
                        Some(v) => v,
                        None => 0,
                    },
                );
            }
            if n - 1 < store.positional.len() {
                proof {
                    assert(store@.positional[n - 1] == store.positional@[n - 1]@);
                }
                return Ok(
                    match parse_i64(store.positional[n - 1].as_str()) {
                        Some(v) => v,
                        None => 0,
                    },
                );
            }
            Ok(0)
        },
        None => {
            let k = find_var(store, name);
            if store.nounset && k >= store.vars.len() {
                return fail(text2(name, ": unbound variable"));
            }
            resolve(name, 0, store, depth)
        },
    }
}

/// The scalar text of the variable `name`.
fn scalar_text_of(store: &VarStore, name: &str) -> (r: String)
    ensures
        r@ == scalar_text(lookup_var(store@.vars, name@)),
{
    let k = find_var(store, name);
    if k >= store.vars.len() {
        return String::new();
    }
    proof {
        reveal_strlit("0");
    }
    match &store.vars[k].1 {
        VarValue::Scalar(t) => t.clone(),
        VarValue::Indexed(es) => match indexed_get(es, 0) {
            Some(t) => t,
            None => String::new(),
        },
        VarValue::Assoc(es) => match assoc_get(es, "0") {
            Some(t) => t,
            None => String::new(),
        },
    }
}

/// A variable's value as a number: exactly `resolve_s`.
fn resolve(name: &str, d: u32, store: &mut VarStore, depth: u32) -> (r: Result<i64, RustBashError>)
    requires
        d <= 10,
    ensures
        (outcome(r), final(store)@) == resolve_s(name@, d as nat, old(store)@, depth as nat),
    decreases depth, 11 - d, ArithExpr::Literal(0),
{
    let t = scalar_text_of(store, name);
    if chars_of(t.as_str()).len() == 0 {
        return Ok(0);
    }
    match parse_i64(t.as_str()) {
        Some(v) => Ok(v),
        None => if d < 10 && is_name_like(t.as_str()) {
            resolve(t.as_str(), d + 1, store, depth)
        } else if d < 10 {
            if depth == 0 {
                proof {
                    reveal_strlit(": recursive evaluation depth exceeded");
                }
                fail(text2(name, ": recursive evaluation depth exceeded"))
            } else {
                eval_text(t.as_str(), store, depth - 1)
            }
        } else {
            Ok(0)
        },
    }
}

/// Evaluates arithmetic text: exactly `eval_text_s`.
pub fn eval_text(text: &str, store: &mut VarStore, depth: u32) -> (r: Result<i64, RustBashError>)
    ensures
        (outcome(r), final(store)@) == eval_text_s(text@, old(store)@, depth as nat),
    decreases depth, 14int, ArithExpr::Literal(0),
{
    let names = assoc_array_names(store);
    let (prepped, phs) = substitute_quoted_assoc_subscripts(text, &names);
    let stripped = match strip_and_validate(prepped.as_str(), store.strict_arith) {
        Ok(t) => t,
        Err(e) => {
            return Err(e);
        },
    };
    if is_all_blank(stripped.as_str()) {
        return Ok(0);
    }
    match parse_arithmetic(stripped.as_str()) {
        Err(m) => {
            proof {
                reveal_strlit("arithmetic: syntax error in expression: ");
            }
            fail(text2("arithmetic: syntax error in expression: ", m.as_str()))
        },
        Ok(ast) => {
            if check_expr(&ast) {
                eval(&ast, store, &phs, depth)
            } else {
                fail(String::from_str("arithmetic: syntax error: operand expected"))
            }
        },
    }
}

/// Writes `v` to what a target names: exactly `write_s`.
fn write_target(t: &ArithTarget, v: i64, store: &mut VarStore, phs: &Vec<(String, String)>, depth: u32) -> (r: Result<(), RustBashError>)
    requires
        wf_target(*t),
    ensures
        (unit_outcome(r), final(store)@) == write_s(*t, v, old(store)@, pairs_view(phs@), depth as nat),
    decreases depth, 13int, *t,
{
    match t {
        ArithTarget::Variable(name) => {
            set_variable(store, name.as_str(), decimal_text(v));
            Ok(())
        },
        ArithTarget::ArrayElement(name, idx) => {
            let k = find_var(store, name.as_str());
            let is_assoc = k < store.vars.len() && match &store.vars[k].1 {
                VarValue::Assoc(_) => true,
                _ => false,
            };
            if is_assoc {
                let key = assoc_key_of(idx, phs);
                set_key(store, name.as_str(), key.as_str(), decimal_text(v));
                return Ok(());
            }
            let i = match eval(idx, store, phs, depth) {
                Ok(x) => x,
                Err(m) => {
                    return Err(m);
                },
            };
            indexed_write(name.as_str(), i, v, store)
        },
    }
}

/// Writes element `i` of an indexed array: exactly `indexed_write_s`.
fn indexed_write(name: &str, i: i64, v: i64, store: &mut VarStore) -> (r: Result<(), RustBashError>)
    ensures
        (unit_outcome(r), final(store)@) == indexed_write_s(name@, i, v, old(store)@),
{
    if i >= 0 {
        set_element(store, name, i as u64, decimal_text(v));
        return Ok(());
    }
    let k = find_var(store, name);
    let top: Option<u64> = if k >= store.vars.len() {
        None
    } else {
        match &store.vars[k].1 {
            VarValue::Indexed(es) => {
                proof {
                    if es@.len() > 0 {
                        assert(indexed_view(es@)[es@.len() - 1] == (es@[es@.len() - 1].0, es@[es@.len() - 1].1@));
                    }
                }
                if es.len() > 0 {
                    Some(es[es.len() - 1].0)
                } else {
                    None
                }
            },
            VarValue::Scalar(_) => Some(0),
            VarValue::Assoc(_) => None,
        }
    };
    proof {
        reveal_strlit(": bad array subscript");
    }
    match top {
        Some(m) => {
            let at: i128 = m as i128 + 1 + i as i128;
            if at >= 0 {
                set_element(store, name, at as u64, decimal_text(v));
                Ok(())
            } else {
                Err(RustBashError::Execution(text2(name, ": bad array subscript")))
            }
        },
        None => Err(RustBashError::Execution(text2(name, ": bad array subscript"))),
    }
}

/// Evaluates the arithmetic text `expr` in `store`, with stored strings
/// evaluated in turn to ten levels: exactly `eval_text_s` at depth 10.
pub fn eval_arithmetic(expr: &str, store: &mut VarStore) -> (r: Result<i64, RustBashError>)
    ensures
        (outcome(r), final(store)@) == eval_text_s(expr@, old(store)@, 10),
{
    eval_text(expr, store, 10)
}

// ── Laws ───────────────────────────────────────────────────────────

/// Looking a name up after setting it: the name gives the new value, any
/// other name what it gave before.
pub proof fn lemma_lookup_after_put<V>(es: Seq<(Seq<char>, V)>, k: Seq<char>, v: V, q: Seq<char>)
    ensures
        first_value(put_first(es, k, v), q) == if q == k {
            Some(v)
        } else {
            first_value(es, q)
        },
    decreases es.len(),
{
    let p = put_first(es, k, v);
    if es.len() == 0 {
        assert(p == seq![(k, v)]);
        assert(p.drop_first() =~= Seq::<(Seq<char>, V)>::empty());
        assert(first_value(p.drop_first(), q) == None::<V>);
    } else if es[0].0 == k {
        assert(p == es.update(0, (k, v)));
        assert(p.drop_first() =~= es.drop_first());
    } else {
        lemma_lookup_after_put(es.drop_first(), k, v, q);
        assert(p == seq![es[0]] + put_first(es.drop_first(), k, v));
        assert(p[0] == es[0]);
        assert(p.drop_first() =~= put_first(es.drop_first(), k, v));
    }
}

/// Compound assignment `x op= a` on an ordinary variable `x` (not `#`,
/// `?`, a positional number or a scanner placeholder): once `a` has
/// evaluated to `operand`, with `x` then holding the decimal integer
/// `held`, the answer is `held op operand`, the variable's old value on
/// the left (`x=10; x -= 3` gives 7). `x` then holds that value's decimal text and every
/// other variable, the positional parameters and the options are as `a`
/// left them; where the operator fails (division by zero, a negative
/// exponent) its error is the answer and nothing more changes.
pub proof fn lemma_compound_assignment(
    op: ArithBinaryOp,
    x: String,
    a: ArithExpr,
    s: StoreView,
    phs: Seq<(Seq<char>, Seq<char>)>,
    depth: nat,
    operand: i64,
    s1: StoreView,
    t: Seq<char>,
    held: i64,
)
    requires
        eval_s(a, s, phs, depth) == (Ok::<i64, Seq<char>>(operand), s1),
        lookup_var(s1.vars, x@) == Some(ValView::Scalar(t)),
        t.len() > 0,
        parsed_i64(t) == Some(held),
        x@ != "#"@,
        x@ != "?"@,
        parsed_usize(x@) is None,
        mapped_name(x@) == x@,
    ensures
        ({
            let (r, s2) = eval_s(ArithExpr::BinaryAssignment(op, ArithTarget::Variable(x), Box::new(a)), s, phs, depth);
            match binary_result(op, held, operand) {
                Ok(v) => {
                    &&& r == Ok::<i64, Seq<char>>(v)
                    &&& lookup_var(s2.vars, x@) == Some(ValView::Scalar(decimal(v as int)))
                    &&& forall|n: Seq<char>| n != x@ ==> #[trigger] lookup_var(s2.vars, n) == lookup_var(s1.vars, n)
                    &&& s2.positional == s1.positional && s2.last_exit == s1.last_exit && s2.shell_name == s1.shell_name
                    &&& s2.nounset == s1.nounset && s2.strict == s1.strict
                },
                Err(m) => r == Err::<i64, Seq<char>>(m) && s2 == s1,
            }
        }),
{
    let e = ArithExpr::BinaryAssignment(op, ArithTarget::Variable(x), Box::new(a));
    assert(scalar_text(lookup_var(s1.vars, x@)) == t);
    assert(resolve_s(x@, 0, s1, depth) == (Ok::<i64, Seq<char>>(held), s1));
    assert(read_var_s(x@, s1, depth) == (Ok::<i64, Seq<char>>(held), s1));
    assert(read_s(ArithTarget::Variable(x), s1, phs, depth) == (Ok::<i64, Seq<char>>(held), s1));
    if let Ok(v) = binary_result(op, held, operand) {
        let s2 = set_variable_s(s1, x@, decimal(v as int));
        assert(write_s(ArithTarget::Variable(x), v, s1, phs, depth) == (Ok::<(), Seq<char>>(()), s2));
        assert(eval_s(e, s, phs, depth) == (Ok::<i64, Seq<char>>(v), s2));
        lemma_lookup_after_put(s1.vars, x@, ValView::Scalar(decimal(v as int)), x@);
        assert forall|n: Seq<char>| n != x@ implies #[trigger] lookup_var(s2.vars, n) == lookup_var(s1.vars, n) by {
            lemma_lookup_after_put(s1.vars, x@, ValView::Scalar(decimal(v as int)), n);
        }
    }
}

/// Increments and decrements of an ordinary variable `x` holding the
/// decimal integer `held`: the variable then holds `held` plus or minus
/// one (wrapping), and the answer is that new value for the prefix forms
/// (`++x`, `--x`) and the old value `held` for the postfix forms (`x++`,
/// `x--`).
pub proof fn lemma_step_assignment(op: ArithStepOp, x: String, s: StoreView, phs: Seq<(Seq<char>, Seq<char>)>, depth: nat, t: Seq<char>, held: i64)
    requires
        lookup_var(s.vars, x@) == Some(ValView::Scalar(t)),
        t.len() > 0,
        parsed_i64(t) == Some(held),
        x@ != "#"@,
        x@ != "?"@,
        parsed_usize(x@) is None,
        mapped_name(x@) == x@,
    ensures
        ({
            let (r, s2) = eval_s(ArithExpr::UnaryAssignment(op, ArithTarget::Variable(x)), s, phs, depth);
            let next: int = if op is PrefixIncrement || op is PostfixIncrement {
                if held == i64::MAX { i64::MIN as int } else { held + 1 }
            } else {
                if held == i64::MIN { i64::MAX as int } else { held - 1 }
            };
            &&& r == Ok::<i64, Seq<char>>(if op is PrefixIncrement || op is PrefixDecrement { next as i64 } else { held })
            &&& lookup_var(s2.vars, x@) == Some(ValView::Scalar(decimal(next)))
            &&& forall|n: Seq<char>| n != x@ ==> #[trigger] lookup_var(s2.vars, n) == lookup_var(s.vars, n)
        }),
{
    assert(scalar_text(lookup_var(s.vars, x@)) == t);
    assert(resolve_s(x@, 0, s, depth) == (Ok::<i64, Seq<char>>(held), s));
    assert(read_var_s(x@, s, depth) == (Ok::<i64, Seq<char>>(held), s));
    assert(read_s(ArithTarget::Variable(x), s, phs, depth) == (Ok::<i64, Seq<char>>(held), s));
    let new = stepped(op, held);
    assert(new as int == if op is PrefixIncrement || op is PostfixIncrement {
        if held == i64::MAX { i64::MIN as int } else { held + 1 }
    } else {
        if held == i64::MIN { i64::MAX as int } else { held - 1 }
    });
    let s2 = set_variable_s(s, x@, decimal(new as int));
    assert(write_s(ArithTarget::Variable(x), new, s, phs, depth) == (Ok::<(), Seq<char>>(()), s2));
    lemma_lookup_after_put(s.vars, x@, ValView::Scalar(decimal(new as int)), x@);
    assert forall|n: Seq<char>| n != x@ implies #[trigger] lookup_var(s2.vars, n) == lookup_var(s.vars, n) by {
        lemma_lookup_after_put(s.vars, x@, ValView::Scalar(decimal(new as int)), n);
    }
}

/// Short-circuiting: once the left operand of `||` is nonzero (of `&&`,
/// zero), the right operand is not evaluated: the answer is 1 (0) and the
/// store is the one the left operand left, whatever the right operand
/// would have done.
pub proof fn lemma_short_circuit(op: ArithBinaryOp, a: ArithExpr, b: ArithExpr, s: StoreView, phs: Seq<(Seq<char>, Seq<char>)>, depth: nat, l: i64, s1: StoreView)
    requires
        eval_s(a, s, phs, depth) == (Ok::<i64, Seq<char>>(l), s1),
        (op is LogicalOr && l != 0) || (op is LogicalAnd && l == 0),
    ensures
        eval_s(ArithExpr::BinaryOp(op, Box::new(a), Box::new(b)), s, phs, depth) == (Ok::<i64, Seq<char>>(if op is LogicalOr { 1 } else { 0 }), s1),
{
}

/// A binary operator other than `,`, `||` and `&&` evaluates its left
/// operand first and then its right one, in the store the left one left,
/// and answers `left op right` (the left operand's value on the left).
pub proof fn lemma_binary_operands(
    op: ArithBinaryOp,
    a: ArithExpr,
    b: ArithExpr,
    s: StoreView,
    phs: Seq<(Seq<char>, Seq<char>)>,
    depth: nat,
    left: i64,
    s1: StoreView,
    right: i64,
    s2: StoreView,
)
    requires
        !(op is Comma || op is LogicalOr || op is LogicalAnd),
        eval_s(a, s, phs, depth) == (Ok::<i64, Seq<char>>(left), s1),
        eval_s(b, s1, phs, depth) == (Ok::<i64, Seq<char>>(right), s2),
    ensures
        eval_s(ArithExpr::BinaryOp(op, Box::new(a), Box::new(b)), s, phs, depth) == (binary_result(op, left, right), s2),
{
}

/// Plain assignment `x = a` to an ordinary variable: the answer is the
/// value of `a`, which `x` then holds as decimal text; every other
/// variable is as `a` left it.
pub proof fn lemma_plain_assignment(
    x: String,
    a: ArithExpr,
    s: StoreView,
    phs: Seq<(Seq<char>, Seq<char>)>,
    depth: nat,
    v: i64,
    s1: StoreView,
)
    requires
        eval_s(a, s, phs, depth) == (Ok::<i64, Seq<char>>(v), s1),
        lookup_var(s1.vars, x@) is None || lookup_var(s1.vars, x@) matches Some(ValView::Scalar(_)),
    ensures
        ({
            let (r, s2) = eval_s(ArithExpr::Assignment(ArithTarget::Variable(x), Box::new(a)), s, phs, depth);
            &&& r == Ok::<i64, Seq<char>>(v)
            &&& lookup_var(s2.vars, x@) == Some(ValView::Scalar(decimal(v as int)))
            &&& forall|n: Seq<char>| n != x@ ==> #[trigger] lookup_var(s2.vars, n) == lookup_var(s1.vars, n)
        }),
{
    let s2 = set_variable_s(s1, x@, decimal(v as int));
    assert(write_s(ArithTarget::Variable(x), v, s1, phs, depth) == (Ok::<(), Seq<char>>(()), s2));
    lemma_lookup_after_put(s1.vars, x@, ValView::Scalar(decimal(v as int)), x@);
    assert forall|n: Seq<char>| n != x@ implies #[trigger] lookup_var(s2.vars, n) == lookup_var(s1.vars, n) by {
        lemma_lookup_after_put(s1.vars, x@, ValView::Scalar(decimal(v as int)), n);
    }
}

} // verus!
