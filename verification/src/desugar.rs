//! The rewriting passes that need no registry: `defer`, written out at each
//! way a block can be left.

use vstd::prelude::*;
use crate::text::{dec, push_dec, text};
use crate::text::str_eq;
use crate::lexer::is_name;
use crate::types::{expr_dup, exprs_dup, same_expr, same_exprs, item_components, item_forms, Component, Expr, Form, Ident, Module, Span, Stmt, StmtKind, Ty};

verus! {

/// Something the sugar asked for that the program cannot mean.
#[derive(Debug, Clone, PartialEq)]
pub struct DesugarError {
    pub msg: String,
    pub span: Span,
}

/// A statement with no block of its own to leave: what `defer` may run.
pub open spec fn simple(s: Stmt) -> bool {
    !(s.kind is Defer || s.kind is If || s.kind is Match || s.kind is While || s.kind is For
        || s.kind is ForEach)
}

/// Two statements are of the same kind, as far as blocks and `defer` go.
pub open spec fn same_shape(a: Stmt, b: Stmt) -> bool {
    &&& (a.kind is Defer <==> b.kind is Defer)
    &&& (a.kind is If <==> b.kind is If)
    &&& (a.kind is Match <==> b.kind is Match)
    &&& (a.kind is While <==> b.kind is While)
    &&& (a.kind is For <==> b.kind is For)
    &&& (a.kind is ForEach <==> b.kind is ForEach)
}

/// Two blocks have the same structure: as many statements, each of the same
/// kind as its partner, and the blocks an `if`, `match` or loop holds of the
/// same structure in turn.
pub open spec fn same_blocks(x: Seq<Stmt>, y: Seq<Stmt>) -> bool
    decreases x,
{
    x.len() == y.len() && forall|i: int| 0 <= i < x.len() ==> same_tree(#[trigger] x[i], y[i])
}

/// Two statements have the same structure.
pub open spec fn same_tree(a: Stmt, b: Stmt) -> bool
    decreases a,
{
    &&& same_shape(a, b)
    &&& match (a.kind, b.kind) {
        (StmtKind::If { arms: p, otherwise: o }, StmtKind::If { arms: q, otherwise: r }) => {
            &&& p@.len() == q@.len()
            &&& forall|j: int| 0 <= j < p@.len() ==> same_blocks((#[trigger] p@[j]).1@, q@[j].1@)
            &&& match (o, r) {
                (Some(x), Some(y)) => same_blocks(x@, y@),
                (None, None) => true,
                _ => false,
            }
        },
        (StmtKind::Match { arms: p, otherwise: o, .. }, StmtKind::Match { arms: q, otherwise: r, .. }) => {
            &&& p@.len() == q@.len()
            &&& forall|j: int| 0 <= j < p@.len() ==> same_blocks((#[trigger] p@[j]).1@, q@[j].1@)
            &&& match (o, r) {
                (Some(x), Some(y)) => same_blocks(x@, y@),
                (None, None) => true,
                _ => false,
            }
        },
        (StmtKind::While { body: x, .. }, StmtKind::While { body: y, .. }) => same_blocks(x@, y@),
        (StmtKind::For { body: x, .. }, StmtKind::For { body: y, .. }) => same_blocks(x@, y@),
        (StmtKind::ForEach { body: x, .. }, StmtKind::ForEach { body: y, .. }) => same_blocks(x@, y@),
        _ => true,
    }
}

/// No `defer` is left in a block, nor in any block an `if`, `match` or loop in
/// it holds.
pub open spec fn stmts_free(b: Seq<Stmt>) -> bool
    decreases b,
{
    forall|i: int| 0 <= i < b.len() ==> stmt_free(#[trigger] b[i])
}

pub open spec fn stmt_free(s: Stmt) -> bool
    decreases s,
{
    match s.kind {
        StmtKind::Defer(_) => false,
        StmtKind::If { arms, otherwise } => {
            &&& forall|j: int| 0 <= j < arms@.len() ==> stmts_free((#[trigger] arms@[j]).1@)
            &&& match otherwise {
                Some(b) => stmts_free(b@),
                None => true,
            }
        },
        StmtKind::Match { arms, otherwise, .. } => {
            &&& forall|j: int| 0 <= j < arms@.len() ==> stmts_free((#[trigger] arms@[j]).1@)
            &&& match otherwise {
                Some(b) => stmts_free(b@),
                None => true,
            }
        },
        StmtKind::While { body, .. } => stmts_free(body@),
        StmtKind::For { body, .. } => stmts_free(body@),
        StmtKind::ForEach { body, .. } => stmts_free(body@),
        _ => true,
    }
}

/// Every `defer` in a block, and in the blocks an `if`, `match` or loop in it
/// holds, runs a simple statement: what the parser lets through.
pub open spec fn stmts_deferred_simple(b: Seq<Stmt>) -> bool
    decreases b,
{
    forall|i: int| 0 <= i < b.len() ==> stmt_deferred_simple(#[trigger] b[i])
}

pub open spec fn stmt_deferred_simple(s: Stmt) -> bool
    decreases s,
{
    match s.kind {
        StmtKind::Defer(inner) => simple(*inner),
        StmtKind::If { arms, otherwise } => {
            &&& forall|j: int| 0 <= j < arms@.len() ==> stmts_deferred_simple((#[trigger] arms@[j]).1@)
            &&& match otherwise {
                Some(b) => stmts_deferred_simple(b@),
                None => true,
            }
        },
        StmtKind::Match { arms, otherwise, .. } => {
            &&& forall|j: int| 0 <= j < arms@.len() ==> stmts_deferred_simple((#[trigger] arms@[j]).1@)
            &&& match otherwise {
                Some(b) => stmts_deferred_simple(b@),
                None => true,
            }
        },
        StmtKind::While { body, .. } => stmts_deferred_simple(body@),
        StmtKind::For { body, .. } => stmts_deferred_simple(body@),
        StmtKind::ForEach { body, .. } => stmts_deferred_simple(body@),
        _ => true,
    }
}

/// A copy of an optional name.
fn string_opt_dup(s: &Option<String>) -> (r: Option<String>)
    ensures
        r == *s,
{
    match s {
        Some(x) => Some(x.clone()),
        None => None,
    }
}

/// A copy of each identifier, in order.
fn idents_dup(v: &Vec<Ident>) -> (r: Vec<Ident>)
    ensures
        r@ == v@,
{
    let mut out: Vec<Ident> = Vec::new();
    let mut i: usize = 0;
    while i < v.len()
        invariant
            i <= v@.len(),
            out@ == v@.take(i as int),
        decreases v@.len() - i,
    {
        out.push(Ident { name: v[i].name.clone(), span: v[i].span });
        proof {
            assert(out@ =~= v@.take(i + 1));
        }
        i = i + 1;
    }
    proof {
        assert(v@.take(i as int) =~= v@);
    }
    out
}

/// A copy of a statement, part for part.
fn stmt_dup(s: &Stmt) -> (r: Stmt)
    ensures
        same_shape(r, *s),
        same_tree(r, *s),
        r.line == s.line && r.span == s.span,
        simple(*s) ==> same_leaf(r.kind, s.kind),
    decreases s,
{
    let kind = match &s.kind {
        StmtKind::LetInfer { name, value, mutable } => StmtKind::LetInfer {
            name: text(name.as_str()),
            value: expr_dup(value),
            mutable: *mutable,
        },
        StmtKind::Let { name, ty, value, mutable } => StmtKind::Let {
            name: text(name.as_str()),
            ty: *ty,
            value: expr_dup(value),
            mutable: *mutable,
        },
        StmtKind::Assign { name, value } => StmtKind::Assign { name: text(name.as_str()), value: expr_dup(value) },
        StmtKind::Call { cmd, args } => StmtKind::Call { cmd: text(cmd.as_str()), args: exprs_dup(args) },
        StmtKind::CallThrough { callee, args, ret, conv } => StmtKind::CallThrough {
            callee: expr_dup(callee),
            args: exprs_dup(args),
            ret: *ret,
            conv: *conv,
        },
        StmtKind::SetIndex { name, index, value } => StmtKind::SetIndex {
            name: text(name.as_str()),
            index: expr_dup(index),
            value: expr_dup(value),
        },
        StmtKind::SetProperty { component, property, value } => StmtKind::SetProperty {
            component: text(component.as_str()),
            property: text(property.as_str()),
            value: expr_dup(value),
        },
        StmtKind::SetPlace { place, value } => StmtKind::SetPlace { place: expr_dup(place), value: expr_dup(value) },
        StmtKind::If { arms, otherwise } => {
            let mut a: Vec<(Expr, Vec<Stmt>)> = Vec::new();
            let mut j: usize = 0;
            while j < arms.len()
                invariant
                    j <= arms@.len(),
                    s.kind is If && s.kind->If_arms == *arms,
                    a@.len() == j,
                    forall|k: int| 0 <= k < j ==> same_blocks((#[trigger] a@[k]).1@, arms@[k].1@),
                decreases arms@.len() - j,
            {
                proof {
                    assert(decreases_to!(s => arms[j as int].1));
                }
                a.push((expr_dup(&arms[j].0), stmts_dup(&arms[j].1)));
                j = j + 1;
            }
            StmtKind::If {
                arms: a,
                otherwise: match otherwise {
                    Some(b) => Some(stmts_dup(b)),
                    None => None,
                },
            }
        },
        StmtKind::While { cond, body } => StmtKind::While { cond: expr_dup(cond), body: stmts_dup(body) },
        StmtKind::Match { scrutinee, arms, otherwise } => {
            let mut a: Vec<(Vec<Expr>, Vec<Stmt>)> = Vec::new();
            let mut j: usize = 0;
            while j < arms.len()
                invariant
                    j <= arms@.len(),
                    s.kind is Match && s.kind->Match_arms == *arms,
                    a@.len() == j,
                    forall|k: int| 0 <= k < j ==> same_blocks((#[trigger] a@[k]).1@, arms@[k].1@),
                decreases arms@.len() - j,
            {
                proof {
                    assert(decreases_to!(s => arms[j as int].1));
                }
                a.push((exprs_dup(&arms[j].0), stmts_dup(&arms[j].1)));
                j = j + 1;
            }
            StmtKind::Match {
                scrutinee: expr_dup(scrutinee),
                arms: a,
                otherwise: match otherwise {
                    Some(b) => Some(stmts_dup(b)),
                    None => None,
                },
            }
        },
        StmtKind::For { var, start, limit, step, body } => StmtKind::For {
            var: text(var.as_str()),
            start: expr_dup(start),
            limit: expr_dup(limit),
            step: *step,
            body: stmts_dup(body),
        },
        StmtKind::ForEach { elem, value, index, coll, body } => StmtKind::ForEach {
            elem: text(elem.as_str()),
            value: string_opt_dup(value),
            index: string_opt_dup(index),
            coll: expr_dup(coll),
            body: stmts_dup(body),
        },
        StmtKind::Break => StmtKind::Break,
        StmtKind::Continue => StmtKind::Continue,
        StmtKind::Return { value } => StmtKind::Return {
            value: match value {
                Some(e) => Some(expr_dup(e)),
                None => None,
            },
        },
        StmtKind::IfSome { value, bind, body, otherwise } => StmtKind::IfSome {
            value: expr_dup(value),
            bind: text(bind.as_str()),
            body: stmts_dup(body),
            otherwise: match otherwise {
                Some(b) => Some(stmts_dup(b)),
                None => None,
            },
        },
        StmtKind::Defer(inner) => StmtKind::Defer(Box::new(stmt_dup(inner))),
    };
    Stmt { kind, line: s.line, span: s.span, idents: idents_dup(&s.idents) }
}

/// A copy of each statement, in order.
fn stmts_dup(v: &Vec<Stmt>) -> (r: Vec<Stmt>)
    ensures
        r@.len() == v@.len(),
        forall|i: int| 0 <= i < v@.len() ==> same_shape(#[trigger] r@[i], v@[i]),
        same_blocks(r@, v@),
    decreases v,
{
    let mut out: Vec<Stmt> = Vec::new();
    let mut i: usize = 0;
    while i < v.len()
        invariant
            i <= v@.len(),
            out@.len() == i,
            forall|k: int| 0 <= k < i ==> same_shape(#[trigger] out@[k], v@[k]),
            forall|k: int| 0 <= k < i ==> same_tree(#[trigger] out@[k], v@[k]),
        decreases v@.len() - i,
    {
        out.push(stmt_dup(&v[i]));
        i = i + 1;
    }
    out
}

pub open spec fn all_simple(b: Seq<Stmt>) -> bool {
    forall|i: int| 0 <= i < b.len() ==> simple(#[trigger] b[i])
}

/// A simple statement holds no `defer` to expand.
proof fn lemma_simple_free(s: Stmt)
    requires
        simple(s),
    ensures
        stmt_free(s),
{
}

/// Simple statement `a` says what `b` says: the same names, types and
/// flags, and copies of its expressions.
pub open spec fn same_leaf(a: StmtKind, b: StmtKind) -> bool {
    match (a, b) {
        (StmtKind::LetInfer { name: n1, value: v1, mutable: m1 }, StmtKind::LetInfer { name: n2, value: v2, mutable: m2 }) =>
            n1@ == n2@ && same_expr(v2, v1) && m1 == m2,
        (StmtKind::Let { name: n1, ty: t1, value: v1, mutable: m1 }, StmtKind::Let { name: n2, ty: t2, value: v2, mutable: m2 }) =>
            n1@ == n2@ && t1 == t2 && same_expr(v2, v1) && m1 == m2,
        (StmtKind::Assign { name: n1, value: v1 }, StmtKind::Assign { name: n2, value: v2 }) =>
            n1@ == n2@ && same_expr(v2, v1),
        (StmtKind::Call { cmd: c1, args: a1 }, StmtKind::Call { cmd: c2, args: a2 }) =>
            c1@ == c2@ && same_exprs(a2@, a1@),
        (StmtKind::CallThrough { callee: f1, args: a1, ret: r1, conv: k1 },
            StmtKind::CallThrough { callee: f2, args: a2, ret: r2, conv: k2 }) =>
            same_expr(f2, f1) && same_exprs(a2@, a1@) && r1 == r2 && k1 == k2,
        (StmtKind::SetIndex { name: n1, index: i1, value: v1 }, StmtKind::SetIndex { name: n2, index: i2, value: v2 }) =>
            n1@ == n2@ && same_expr(i2, i1) && same_expr(v2, v1),
        (StmtKind::SetProperty { component: c1, property: p1, value: v1 },
            StmtKind::SetProperty { component: c2, property: p2, value: v2 }) =>
            c1@ == c2@ && p1@ == p2@ && same_expr(v2, v1),
        (StmtKind::SetPlace { place: p1, value: v1 }, StmtKind::SetPlace { place: p2, value: v2 }) =>
            same_expr(p2, p1) && same_expr(v2, v1),
        (StmtKind::Return { value: v1 }, StmtKind::Return { value: v2 }) => match (v1, v2) {
            (Some(x), Some(y)) => same_expr(y, x),
            (None, None) => true,
            _ => false,
        },
        (StmtKind::Break, StmtKind::Break) => true,
        (StmtKind::Continue, StmtKind::Continue) => true,
        (StmtKind::IfSome { value: v1, bind: b1, .. }, StmtKind::IfSome { value: v2, bind: b2, .. }) =>
            same_expr(v2, v1) && b1@ == b2@,
        _ => false,
    }
}

/// `a` is a copy of `b`: the same structure, at the same place in the
/// source, and, where `b` is a simple statement, saying what it says.
pub open spec fn same_copy(a: Stmt, b: Stmt) -> bool {
    same_tree(a, b) && a.line == b.line && a.span == b.span && (simple(b) ==> same_leaf(a.kind, b.kind))
}

/// `x` is a copy of `y`, statement for statement.
pub open spec fn copies(x: Seq<Stmt>, y: Seq<Stmt>) -> bool {
    x.len() == y.len() && forall|i: int| 0 <= i < x.len() ==> same_copy(#[trigger] x[i], y[i])
}

/// The statements `defer`red among the first `i` of a block, in the order
/// written.
pub open spec fn deferred(stmts: Seq<Stmt>, i: int) -> Seq<Stmt>
    decreases i,
{
    if i <= 0 {
        Seq::empty()
    } else {
        let d = deferred(stmts, i - 1);
        match stmts[i - 1].kind {
            StmtKind::Defer(inner) => d.push(*inner),
            _ => d,
        }
    }
}

/// Deferred statements pile up in the order they are written: what a block
/// has deferred by statement `i` stays, unchanged and first, in what it has
/// deferred by any later statement `k`, and a `defer` adds its statement
/// last.
pub proof fn law_deferred_keeps_writing_order(stmts: Seq<Stmt>, i: int, k: int)
    requires
        0 <= i <= k <= stmts.len(),
    ensures
        deferred(stmts, i).len() <= deferred(stmts, k).len(),
        deferred(stmts, k).subrange(0, deferred(stmts, i).len() as int) =~= deferred(stmts, i),
        k > 0 ==> (stmts[k - 1].kind matches StmtKind::Defer(inner)
            ==> deferred(stmts, k).len() == deferred(stmts, k - 1).len() + 1
                && deferred(stmts, k).last() == *inner),
    decreases k - i,
{
    if i < k {
        law_deferred_keeps_writing_order(stmts, i, k - 1);
        let a = deferred(stmts, i);
        let b = deferred(stmts, k - 1);
        let c = deferred(stmts, k);
        assert(c.subrange(0, b.len() as int) =~= b);
        assert(c.subrange(0, a.len() as int) =~= b.subrange(0, a.len() as int));
    }
}

/// The cleanup owed at an exit of a block: the block's own deferred
/// statements, latest first, then what the blocks around it owe.
pub open spec fn cleanup(mine: Seq<Stmt>, outer: Seq<Stmt>) -> Seq<Stmt> {
    mine.reverse() + outer
}

/// At an exit the block's own cleanup runs first, innermost before
/// outermost: its deferred statements in the reverse of the order they were
/// deferred in, and only after the last of them what the enclosing blocks
/// owe, in the order they owe it.
pub proof fn law_cleanup_innermost_first(mine: Seq<Stmt>, outer: Seq<Stmt>)
    ensures
        cleanup(mine, outer).len() == mine.len() + outer.len(),
        forall|i: int| 0 <= i < mine.len() ==> #[trigger] cleanup(mine, outer)[i] == mine[mine.len() - 1 - i],
        forall|j: int| 0 <= j < outer.len() ==> #[trigger] cleanup(mine, outer)[mine.len() + j] == outer[j],
{
}

/// What statement `s` of a block becomes, `mine` being the statements the
/// block deferred before it: nothing for a `defer`; for a `return`, the
/// cleanup then the `return`, a returned value first bound to a hidden local
/// of the return type, under a name no program can write, when there is a
/// cleanup to run; for `break` and
/// `continue`, the block's cleanup then the jump; anything else stays one
/// statement of its kind at its place: a copy where it is simple, its own
/// blocks expanded in turn where it holds some.
pub open spec fn exit_piece(
    s: Stmt,
    mine: Seq<Stmt>,
    on_return: Seq<Stmt>,
    on_jump: Seq<Stmt>,
    ret_ty: Option<Ty>,
    p: Seq<Stmt>,
) -> bool {
    match s.kind {
        StmtKind::Defer(_) => p.len() == 0,
        StmtKind::Return { value } => {
            let c = cleanup(mine, on_return);
            if c.len() == 0 {
                p.len() == 1 && same_copy(p[0], s)
            } else {
                match (value, ret_ty) {
                    (Some(e), Some(ty)) => {
                        &&& p.len() == c.len() + 2
                        &&& p[0].line == s.line
                        &&& copies(p.subrange(1, c.len() + 1int), c)
                        &&& p.last().line == s.line && p.last().span == s.span
                        &&& match (p[0].kind, p.last().kind) {
                            (StmtKind::Let { name, ty: t, value: v, mutable }, StmtKind::Return { value: Some(Expr::Var(n)) }) =>
                                t == ty && same_expr(e, v) && !mutable && n@ == name@ && !is_name(name@),
                            _ => false,
                        }
                    },
                    _ => p.len() == c.len() + 1 && copies(p.take(c.len() as int), c) && same_copy(p.last(), s),
                }
            }
        },
        StmtKind::Break | StmtKind::Continue => {
            let c = cleanup(mine, on_jump);
            p.len() == c.len() + 1 && copies(p.take(c.len() as int), c) && same_copy(p.last(), s)
        },
        _ => p.len() == 1 && same_shape(p[0], s) && p[0].line == s.line && p[0].span == s.span
            && (simple(s) ==> same_copy(p[0], s)),
    }
}

/// `r` is block `stmts` expanded: each statement's piece in order, then,
/// after the last statement, the block's deferred statements latest first.
pub open spec fn block_expansion(
    stmts: Seq<Stmt>,
    on_return: Seq<Stmt>,
    on_jump: Seq<Stmt>,
    ret_ty: Option<Ty>,
    r: Seq<Stmt>,
) -> bool {
    exists|cuts: Seq<int>| #[trigger] expansion_cuts(stmts, on_return, on_jump, ret_ty, r, cuts)
}

/// `cuts` marks where each statement's piece of `r` begins and ends.
pub open spec fn expansion_cuts(
    stmts: Seq<Stmt>,
    on_return: Seq<Stmt>,
    on_jump: Seq<Stmt>,
    ret_ty: Option<Ty>,
    r: Seq<Stmt>,
    cuts: Seq<int>,
) -> bool {
    &&& cuts.len() == stmts.len() + 1
    &&& cuts[0] == 0
    &&& forall|k: int| 0 <= k < stmts.len() ==> cuts[k] <= #[trigger] cuts[k + 1]
    &&& cuts[stmts.len() as int] <= r.len()
    &&& forall|k: int| 0 <= k < stmts.len() ==> exit_piece(#[trigger] stmts[k], deferred(stmts, k), on_return, on_jump, ret_ty,
        r.subrange(cuts[k], cuts[k + 1]))
    &&& copies(r.subrange(cuts[stmts.len() as int], r.len() as int), deferred(stmts, stmts.len() as int).reverse())
}

/// Pieces read from a prefix of `after` are the same pieces in `after`.
proof fn lemma_pieces_kept(
    stmts: Seq<Stmt>,
    on_return: Seq<Stmt>,
    on_jump: Seq<Stmt>,
    ret_ty: Option<Ty>,
    before: Seq<Stmt>,
    after: Seq<Stmt>,
    cuts: Seq<int>,
    n: int,
)
    requires
        before.len() <= after.len(),
        after.subrange(0, before.len() as int) == before,
        0 <= n <= stmts.len(),
        cuts.len() > n,
        forall|k: int| 0 <= k <= n ==> 0 <= #[trigger] cuts[k] <= before.len(),
        forall|k: int| 0 <= k < n ==> cuts[k] <= #[trigger] cuts[k + 1],
        forall|k: int| 0 <= k < n ==> exit_piece(#[trigger] stmts[k], deferred(stmts, k), on_return, on_jump, ret_ty,
            before.subrange(cuts[k], cuts[k + 1])),
    ensures
        forall|k: int| 0 <= k < n ==> exit_piece(#[trigger] stmts[k], deferred(stmts, k), on_return, on_jump, ret_ty,
            after.subrange(cuts[k], cuts[k + 1])),
{
    assert forall|k: int| 0 <= k < n implies exit_piece(#[trigger] stmts[k], deferred(stmts, k), on_return, on_jump, ret_ty,
        after.subrange(cuts[k], cuts[k + 1])) by {
        assert(0 <= cuts[k] <= cuts[k + 1] <= before.len());
        assert(after.subrange(cuts[k], cuts[k + 1]) =~= before.subrange(cuts[k], cuts[k + 1]));
    }
}

/// The cleanup a block owes at one of its exits: its own deferred
/// statements, latest first, then what the blocks around it owe.
fn unwind(mine: &Vec<&Stmt>, outer: &Vec<Stmt>) -> (r: Vec<Stmt>)
    ensures
        all_simple(mine@.map_values(|x: &Stmt| *x)) && all_simple(outer@) ==> all_simple(r@),
        r@.len() == mine@.len() + outer@.len(),
        copies(r@, cleanup(mine@.map_values(|x: &Stmt| *x), outer@)),
{
    let ghost mv = mine@.map_values(|x: &Stmt| *x);
    let mut out: Vec<Stmt> = Vec::new();
    let mut k = mine.len();
    while k > 0
        invariant
            k <= mine@.len(),
            mv == mine@.map_values(|x: &Stmt| *x),
            all_simple(mv) ==> all_simple(out@),
            out@.len() == mine@.len() - k,
            forall|i: int| 0 <= i < out@.len() ==> same_copy(#[trigger] out@[i], mv.reverse()[i]),
        decreases k,
    {
        k = k - 1;
        let c = stmt_dup(mine[k]);
        out.push(c);
        assert(mv.reverse()[mine@.len() - k - 1] == mv[k as int]);
    }
    let mut j: usize = 0;
    while j < outer.len()
        invariant
            j <= outer@.len(),
            mv == mine@.map_values(|x: &Stmt| *x),
            all_simple(mv) && all_simple(outer@) ==> all_simple(out@),
            out@.len() == mine@.len() + j,
            forall|i: int| 0 <= i < out@.len() ==> same_copy(#[trigger] out@[i], cleanup(mv, outer@)[i]),
        decreases outer@.len() - j,
    {
        let c = stmt_dup(&outer[j]);
        out.push(c);
        j = j + 1;
    }
    out
}

/// Append every statement of `more` to `out`.
fn append_all(out: &mut Vec<Stmt>, more: Vec<Stmt>)
    ensures
        stmts_free(old(out)@) && all_simple(more@) ==> stmts_free(final(out)@),
        final(out)@ == old(out)@ + more@,
{
    let mut more = more;
    proof {
        if all_simple(more@) {
            assert forall|i: int| 0 <= i < more@.len() implies stmt_free(#[trigger] more@[i]) by {
                lemma_simple_free(more@[i]);
            }
        }
    }
    out.append(&mut more);
}

/// The state of one expansion: the return type of the subroutine, and how
/// many hidden locals have been named.
struct DeferExp {
    ret_ty: Option<Ty>,
    hidden: usize,
}

impl DeferExp {
    /// A fresh hidden local's name: `$defer$N`, numbered from 1. The count
    /// stops at the largest `usize`: each step is taken for a distinct
    /// `return` of the body, and no body holds that many.
    fn fresh(&mut self) -> (r: String)
        ensures
            final(self).hidden == (if old(self).hidden < usize::MAX { old(self).hidden + 1 } else { old(self).hidden as int }),
            final(self).ret_ty == old(self).ret_ty,
            r@ == "$defer$"@ + dec(final(self).hidden as nat),
    {
        if self.hidden < usize::MAX {
            self.hidden = self.hidden + 1;
        }
        let mut name = text("$defer$");
        push_dec(&mut name, self.hidden as u64);
        name
    }

    /// Expand the statements of one block. `on_return` and `on_jump` are the
    /// cleanups the enclosing blocks owe, already in run order; this block's
    /// own are put in front of them.
    #[verifier::rlimit(100)]
    #[verifier::spinoff_prover]
    fn block(&mut self, stmts: &Vec<Stmt>, on_return: &Vec<Stmt>, on_jump: &Vec<Stmt>) -> (r: Vec<Stmt>)
        ensures
            stmts_deferred_simple(stmts@) && all_simple(on_return@) && all_simple(on_jump@)
                ==> stmts_free(r@),
            stmts_free(stmts@) && on_return@.len() == 0 && on_jump@.len() == 0 ==> same_blocks(r@, stmts@),
            block_expansion(stmts@, on_return@, on_jump@, old(self).ret_ty, r@),
            final(self).ret_ty == old(self).ret_ty,
        decreases stmts,
    {
        let ghost ok = stmts_deferred_simple(stmts@) && all_simple(on_return@) && all_simple(on_jump@);
        let ghost plain = stmts_free(stmts@) && on_return@.len() == 0 && on_jump@.len() == 0;
        let ghost ret_ty = self.ret_ty;
        let mut mine: Vec<&Stmt> = Vec::new();
        let mut out: Vec<Stmt> = Vec::new();
        let ghost mut cuts: Seq<int> = seq![0int];
        let mut i: usize = 0;
        while i < stmts.len()
            invariant
                i <= stmts@.len(),
                self.ret_ty == ret_ty,
                ok == (stmts_deferred_simple(stmts@) && all_simple(on_return@) && all_simple(on_jump@)),
                plain == (stmts_free(stmts@) && on_return@.len() == 0 && on_jump@.len() == 0),
                mine@.map_values(|x: &Stmt| *x) == deferred(stmts@, i as int),
                ok ==> all_simple(mine@.map_values(|x: &Stmt| *x)),
                ok ==> stmts_free(out@),
                plain ==> mine@.len() == 0 && out@.len() == i,
                plain ==> forall|k: int| 0 <= k < i ==> same_tree(#[trigger] out@[k], stmts@[k]),
                cuts.len() == i + 1,
                cuts[0] == 0,
                cuts[i as int] == out@.len(),
                forall|k: int| 0 <= k <= i ==> 0 <= #[trigger] cuts[k] <= out@.len(),
                forall|k: int| 0 <= k < i ==> cuts[k] <= #[trigger] cuts[k + 1],
                forall|k: int| 0 <= k < i ==> exit_piece(#[trigger] stmts@[k], deferred(stmts@, k), on_return@, on_jump@, ret_ty,
                    out@.subrange(cuts[k], cuts[k + 1])),
            decreases stmts@.len() - i,
        {
            let s = &stmts[i];
            let ghost before = out@;
            let ghost mv = mine@.map_values(|x: &Stmt| *x);
            assert(ok ==> stmt_deferred_simple(stmts@[i as int]));
            assert(plain ==> stmt_free(stmts@[i as int]));
            match &s.kind {
                StmtKind::Defer(inner) => {
                    let r: &Stmt = inner;
                    mine.push(r);
                    proof {
                        assert(mine@.map_values(|x: &Stmt| *x) =~= mv.push(*r));
                    }
                },
                StmtKind::Return { value } => {
                    let cleanup = unwind(&mine, on_return);
                    if cleanup.len() == 0 {
                        let c = stmt_dup(s);
                        out.push(c);
                        proof {
                            assert(out@.subrange(before.len() as int, out@.len() as int) =~= seq![c]);
                        }
                    } else {
                        match (value, self.ret_ty) {
                            (Some(e), Some(ty)) => {
                                let tmp = self.fresh();
                                proof {
                                    reveal_strlit("$defer$");
                                    assert(tmp@[0] == '$');
                                    assert(!is_name(tmp@));
                                }
                                let bind = Stmt::new(
                                    StmtKind::Let { name: text(tmp.as_str()), ty, value: expr_dup(e), mutable: false },
                                    s.line,
                                );
                                out.push(bind);
                                let ghost cl = cleanup@;
                                append_all(&mut out, cleanup);
                                let ret = Stmt {
                                    kind: StmtKind::Return { value: Some(Expr::Var(tmp)) },
                                    line: s.line,
                                    span: s.span,
                                    idents: idents_dup(&s.idents),
                                };
                                out.push(ret);
                                proof {
                                    let p = out@.subrange(before.len() as int, out@.len() as int);
                                    assert(p.subrange(1, cl.len() + 1int) =~= cl);
                                    assert(p[0] == bind);
                                    assert(p.last() == ret);
                                }
                            },
                            _ => {
                                let ghost cl = cleanup@;
                                append_all(&mut out, cleanup);
                                let c = stmt_dup(s);
                                out.push(c);
                                proof {
                                    let p = out@.subrange(before.len() as int, out@.len() as int);
                                    assert(p.take(cl.len() as int) =~= cl);
                                    assert(p.last() == c);
                                }
                            },
                        }
                    }
                },
                StmtKind::Break | StmtKind::Continue => {
                    let cleanup = unwind(&mine, on_jump);
                    let ghost cl = cleanup@;
                    append_all(&mut out, cleanup);
                    let c = stmt_dup(s);
                    out.push(c);
                    proof {
                        let p = out@.subrange(before.len() as int, out@.len() as int);
                        assert(p.take(cl.len() as int) =~= cl);
                        assert(p.last() == c);
                    }
                },
                _ => {
                    let ret = unwind(&mine, on_return);
                    let jump = unwind(&mine, on_jump);
                    let c = self.nested(s, &ret, &jump);
                    out.push(c);
                    proof {
                        assert(out@.subrange(before.len() as int, out@.len() as int) =~= seq![c]);
                    }
                },
            }
            proof {
                if plain {
                    assert forall|k: int| 0 <= k < i + 1 implies same_tree(#[trigger] out@[k], stmts@[k]) by {}
                }
                assert(deferred(stmts@, i + 1) == match stmts@[i as int].kind {
                    StmtKind::Defer(inner) => deferred(stmts@, i as int).push(*inner),
                    _ => deferred(stmts@, i as int),
                });
                assert(exit_piece(stmts@[i as int], deferred(stmts@, i as int), on_return@, on_jump@, ret_ty,
                    out@.subrange(before.len() as int, out@.len() as int)));
                let c0 = cuts;
                assert(out@.subrange(0, before.len() as int) =~= before);
                cuts = cuts.push(out@.len() as int);
                lemma_pieces_kept(stmts@, on_return@, on_jump@, ret_ty, before, out@, c0, i as int);
                assert forall|k: int| 0 <= k < i + 1 implies exit_piece(#[trigger] stmts@[k], deferred(stmts@, k), on_return@, on_jump@, ret_ty,
                    out@.subrange(cuts[k], cuts[k + 1])) by {
                    if k < i {
                        assert(cuts[k] == c0[k] && cuts[k + 1] == c0[k + 1]);
                    }
                }
                assert forall|k: int| 0 <= k < i + 1 implies cuts[k] <= #[trigger] cuts[k + 1] by {
                    if k < i { assert(c0[k] <= c0[k + 1]); }
                }
            }
            i = i + 1;
        }
        let ghost before = out@;
        let rest = unwind(&mine, &Vec::new());
        let ghost rv = rest@;
        append_all(&mut out, rest);
        proof {
            if plain {
                assert(rv.len() == 0);
                assert(out@.len() == stmts@.len());
            }
            let n = stmts@.len() as int;
            assert(out@.subrange(0, before.len() as int) =~= before);
            assert(out@.subrange(cuts[n], out@.len() as int) =~= rv);
            assert(cleanup(deferred(stmts@, n), Seq::<Stmt>::empty()) =~= deferred(stmts@, n).reverse());
            lemma_pieces_kept(stmts@, on_return@, on_jump@, ret_ty, before, out@, cuts, n);
            assert(expansion_cuts(stmts@, on_return@, on_jump@, ret_ty, out@, cuts));
        }
        out
    }

    /// Expand the blocks a compound statement holds. A loop's body swallows
    /// `break` and `continue`, so nothing in it owes the enclosing block a
    /// jump cleanup; only a `return` still climbs out.
    fn nested(&mut self, s: &Stmt, on_return: &Vec<Stmt>, on_jump: &Vec<Stmt>) -> (r: Stmt)
        requires
            !(s.kind is Defer),
        ensures
            stmt_deferred_simple(*s) && all_simple(on_return@) && all_simple(on_jump@) ==> stmt_free(r),
            stmt_free(*s) && on_return@.len() == 0 && on_jump@.len() == 0 ==> same_tree(r, *s),
            same_shape(r, *s) && r.line == s.line && r.span == s.span,
            simple(*s) ==> same_copy(r, *s),
            final(self).ret_ty == old(self).ret_ty,
        decreases s,
    {
        let ghost ok = stmt_deferred_simple(*s) && all_simple(on_return@) && all_simple(on_jump@);
        let ghost plain = stmt_free(*s) && on_return@.len() == 0 && on_jump@.len() == 0;
        let kind = match &s.kind {
            StmtKind::If { arms, otherwise } => {
                let mut a: Vec<(Expr, Vec<Stmt>)> = Vec::new();
                let mut j: usize = 0;
                while j < arms.len()
                    invariant
                        j <= arms@.len(),
                        s.kind is If && s.kind->If_arms == *arms,
                        self.ret_ty == old(self).ret_ty,
                        ok == (stmt_deferred_simple(*s) && all_simple(on_return@) && all_simple(on_jump@)),
                        plain == (stmt_free(*s) && on_return@.len() == 0 && on_jump@.len() == 0),
                        a@.len() == j,
                        ok ==> forall|k: int| 0 <= k < j ==> stmts_free((#[trigger] a@[k]).1@),
                        plain ==> forall|k: int| 0 <= k < j ==> same_blocks((#[trigger] a@[k]).1@, arms@[k].1@),
                    decreases arms@.len() - j,
                {
                    proof {
                        assert(decreases_to!(s => arms[j as int].1));
                        assert(ok ==> stmts_deferred_simple(arms@[j as int].1@));
                        assert(plain ==> stmts_free(arms@[j as int].1@));
                    }
                    let body = self.block(&arms[j].1, on_return, on_jump);
                    a.push((expr_dup(&arms[j].0), body));
                    j = j + 1;
                }
                let other = match otherwise {
                    Some(b) => Some(self.block(b, on_return, on_jump)),
                    None => None,
                };
                StmtKind::If { arms: a, otherwise: other }
            },
            StmtKind::Match { scrutinee, arms, otherwise } => {
                let mut a: Vec<(Vec<Expr>, Vec<Stmt>)> = Vec::new();
                let mut j: usize = 0;
                while j < arms.len()
                    invariant
                        j <= arms@.len(),
                        s.kind is Match && s.kind->Match_arms == *arms,
                        self.ret_ty == old(self).ret_ty,
                        ok == (stmt_deferred_simple(*s) && all_simple(on_return@) && all_simple(on_jump@)),
                        plain == (stmt_free(*s) && on_return@.len() == 0 && on_jump@.len() == 0),
                        a@.len() == j,
                        ok ==> forall|k: int| 0 <= k < j ==> stmts_free((#[trigger] a@[k]).1@),
                        plain ==> forall|k: int| 0 <= k < j ==> same_blocks((#[trigger] a@[k]).1@, arms@[k].1@),
                    decreases arms@.len() - j,
                {
                    proof {
                        assert(decreases_to!(s => arms[j as int].1));
                        assert(ok ==> stmts_deferred_simple(arms@[j as int].1@));
                        assert(plain ==> stmts_free(arms@[j as int].1@));
                    }
                    let body = self.block(&arms[j].1, on_return, on_jump);
                    a.push((exprs_dup(&arms[j].0), body));
                    j = j + 1;
                }
                let other = match otherwise {
                    Some(b) => Some(self.block(b, on_return, on_jump)),
                    None => None,
                };
                StmtKind::Match { scrutinee: expr_dup(scrutinee), arms: a, otherwise: other }
            },
            StmtKind::While { cond, body } => {
                StmtKind::While { cond: expr_dup(cond), body: self.block(body, on_return, &Vec::new()) }
            },
            StmtKind::For { var, start, limit, step, body } => StmtKind::For {
                var: text(var.as_str()),
                start: expr_dup(start),
                limit: expr_dup(limit),
                step: *step,
                body: self.block(body, on_return, &Vec::new()),
            },
            StmtKind::ForEach { elem, value, index, coll, body } => StmtKind::ForEach {
                elem: text(elem.as_str()),
                value: string_opt_dup(value),
                index: string_opt_dup(index),
                coll: expr_dup(coll),
                body: self.block(body, on_return, &Vec::new()),
            },
            _ => {
                return stmt_dup(s);
            },
        };
        Stmt { kind, line: s.line, span: s.span, idents: idents_dup(&s.idents) }
    }
}

/// Copy every `defer`red statement to the exits of the block it was written
/// in: after the last statement, in front of each `return` below it (with
/// every enclosing block's, innermost first), and in front of each `break`
/// or `continue` that leaves the block. Within one block the copies run in
/// reverse order of declaration. `return EXPR` binds the value to a hidden
/// local of the subroutine's return type before the cleanup runs.
///
/// Where every `defer` runs a simple statement, as the parser ensures, no
/// `defer` is left in the result: in the body, or in any block an `if`,
/// `match` or loop in it holds. A body with no `defer` comes back with the
/// structure it had.
pub fn expand_defer(body: &Vec<Stmt>, ret_ty: Option<Ty>) -> (r: Vec<Stmt>)
    ensures
        stmts_deferred_simple(body@) ==> stmts_free(r@),
        stmts_free(body@) ==> same_blocks(r@, body@),
        block_expansion(body@, Seq::empty(), Seq::empty(), ret_ty, r@),
{
    let mut x = DeferExp { ret_ty, hidden: 0 };
    x.block(body, &Vec::new(), &Vec::new())
}

/// A place: a variable, a component property, or a field or literal-index
/// path from one. Reading one twice reads the same thing twice.
pub open spec fn place(e: Expr) -> bool
    decreases e,
{
    match e {
        Expr::Var(_) => true,
        Expr::Field { base, .. } => place(*base),
        Expr::GetProperty { .. } => true,
        Expr::Index { base, index } => place(*base) && (*index) is IntLit,
        _ => false,
    }
}

/// Whether `e` is a place.
pub fn is_place(e: &Expr) -> (r: bool)
    ensures
        r == place(*e),
    decreases e,
{
    match e {
        Expr::Var(_) => true,
        Expr::Field { base, .. } => is_place(base),
        Expr::GetProperty { .. } => true,
        Expr::Index { base, index } => is_place(base) && matches!(**index, Expr::IntLit(_)),
        _ => false,
    }
}

/// The children of the forms, form by form, in order.
pub open spec fn form_children(forms: Seq<Form>) -> Seq<Component>
    decreases forms.len(),
{
    if forms.len() == 0 {
        Seq::empty()
    } else {
        form_children(forms.drop_last()) + forms.last().children@
    }
}

/// Every component a module declares: the forms' children, then the
/// module-level components.
pub open spec fn declared_components(m: Module) -> Seq<Component> {
    form_children(item_forms(m.items@)) + item_components(m.items@)
}

/// The type the last declaration of component `id` gives it.
pub open spec fn last_type(cs: Seq<Component>, id: Seq<char>) -> Option<Seq<char>>
    decreases cs.len(),
{
    if cs.len() == 0 {
        None
    } else if cs.last().id@ == id {
        Some(cs.last().component_type@)
    } else {
        last_type(cs.drop_last(), id)
    }
}

/// `table` gives each component id among `cs` exactly once, with the type
/// of its last declaration.
pub open spec fn types_of(table: Seq<(String, String)>, cs: Seq<Component>) -> bool {
    &&& forall|i: int, j: int| 0 <= i < j < table.len() ==> table[i].0@ != table[j].0@
    &&& forall|i: int| 0 <= i < table.len() ==> last_type(cs, #[trigger] table[i].0@) == Some(table[i].1@)
    &&& forall|id: Seq<char>| #[trigger] last_type(cs, id) is Some
        ==> exists|i: int| 0 <= i < table.len() && #[trigger] table[i].0@ == id
}

/// Record one more declaration in the table: a later one of an id replaces
/// the type an earlier one gave.
fn note_component(table: &mut Vec<(String, String)>, c: &Component, Ghost(done): Ghost<Seq<Component>>)
    requires
        types_of(old(table)@, done),
    ensures
        types_of(final(table)@, done.push(*c)),
{
    let ghost before = table@;
    let ghost cs = done.push(*c);
    proof {
        assert(cs.drop_last() =~= done);
    }
    let mut i: usize = 0;
    while i < table.len()
        invariant
            table@ == before,
            types_of(before, done),
            cs == done.push(*c),
            cs.drop_last() == done,
            i <= before.len(),
            forall|k: int| 0 <= k < i ==> #[trigger] before[k].0@ != c.id@,
        decreases before.len() - i,
    {
        if str_eq(table[i].0.as_str(), c.id.as_str()) {
            let entry = (crate::text::text(c.id.as_str()), crate::text::text(c.component_type.as_str()));
            table.set(i, entry);
            proof {
                assert forall|a: int, b: int| 0 <= a < b < table@.len() implies table@[a].0@ != table@[b].0@ by {
                    assert(a != i as int ==> table@[a] == before[a]);
                    assert(b != i as int ==> table@[b] == before[b]);
                }
                assert forall|a: int| 0 <= a < table@.len() implies last_type(cs, #[trigger] table@[a].0@) == Some(table@[a].1@) by {
                    if a != i as int {
                        assert(table@[a] == before[a]);
                        assert(last_type(done, before[a].0@) == Some(before[a].1@));
                    }
                }
                assert forall|id: Seq<char>| #[trigger] last_type(cs, id) is Some
                    implies exists|a: int| 0 <= a < table@.len() && #[trigger] table@[a].0@ == id by {
                    if id == c.id@ {
                        assert(table@[i as int].0@ == id);
                    } else {
                        assert(last_type(done, id) is Some);
                        let a = choose|a: int| 0 <= a < before.len() && #[trigger] before[a].0@ == id;
                        assert(table@[a] == before[a]);
                    }
                }
            }
            return;
        }
        i = i + 1;
    }
    let entry = (crate::text::text(c.id.as_str()), crate::text::text(c.component_type.as_str()));
    table.push(entry);
    proof {
        assert forall|a: int, b: int| 0 <= a < b < table@.len() implies table@[a].0@ != table@[b].0@ by {
            if b == before.len() {
                assert(table@[a] == before[a]);
            } else {
                assert(table@[a] == before[a] && table@[b] == before[b]);
            }
        }
        assert forall|a: int| 0 <= a < table@.len() implies last_type(cs, #[trigger] table@[a].0@) == Some(table@[a].1@) by {
            if a < before.len() {
                assert(table@[a] == before[a]);
                assert(last_type(done, before[a].0@) == Some(before[a].1@));
            }
        }
        assert forall|id: Seq<char>| #[trigger] last_type(cs, id) is Some
            implies exists|a: int| 0 <= a < table@.len() && #[trigger] table@[a].0@ == id by {
            if id == c.id@ {
                assert(table@[before.len() as int].0@ == id);
            } else {
                assert(last_type(done, id) is Some);
                let a = choose|a: int| 0 <= a < before.len() && #[trigger] before[a].0@ == id;
                assert(table@[a] == before[a]);
            }
        }
    }
}

/// Component ids and their types, as the checker collects them: every form's
/// children, then the module-level components, a later declaration of an id
/// replacing an earlier one's type. Each id appears once.
pub fn component_types(m: &Module) -> (r: Vec<(String, String)>)
    ensures
        types_of(r@, declared_components(*m)),
{
    let mut table: Vec<(String, String)> = Vec::new();
    let forms = m.forms();
    let ghost fs = item_forms(m.items@);
    let ghost mut done: Seq<Component> = Seq::empty();
    let mut f: usize = 0;
    while f < forms.len()
        invariant
            forms@.len() == fs.len(),
            forall|k: int| 0 <= k < forms@.len() ==> *forms@[k] == fs[k],
            f <= forms@.len(),
            done == form_children(fs.take(f as int)),
            types_of(table@, done),
        decreases forms@.len() - f,
    {
        let form = forms[f];
        let mut c: usize = 0;
        proof {
            assert(form.children@.take(0) =~= Seq::<Component>::empty());
            assert(done + form.children@.take(0) =~= done);
        }
        while c < form.children.len()
            invariant
                c <= form.children@.len(),
                types_of(table@, done + form.children@.take(c as int)),
            decreases form.children@.len() - c,
        {
            note_component(&mut table, &form.children[c], Ghost(done + form.children@.take(c as int)));
            proof {
                assert((done + form.children@.take(c as int)).push(form.children@[c as int])
                    =~= done + form.children@.take(c + 1));
            }
            c = c + 1;
        }
        proof {
            assert(form.children@.take(c as int) =~= form.children@);
            assert(fs.take(f + 1).drop_last() =~= fs.take(f as int));
            assert(fs.take(f + 1).last() == *form);
            done = done + form.children@;
        }
        f = f + 1;
    }
    proof {
        assert(fs.take(f as int) =~= fs);
    }
    let comps = m.components();
    let ghost cs = item_components(m.items@);
    let ghost base = done;
    let mut k: usize = 0;
    proof {
        assert(base + cs.take(0) =~= base);
    }
    while k < comps.len()
        invariant
            comps@.len() == cs.len(),
            forall|j: int| 0 <= j < comps@.len() ==> *comps@[j] == cs[j],
            k <= comps@.len(),
            types_of(table@, base + cs.take(k as int)),
        decreases comps@.len() - k,
    {
        note_component(&mut table, comps[k], Ghost(base + cs.take(k as int)));
        proof {
            assert((base + cs.take(k as int)).push(cs[k as int]) =~= base + cs.take(k + 1));
        }
        k = k + 1;
    }
    proof {
        assert(cs.take(k as int) =~= cs);
    }
    table
}

} // verus!
