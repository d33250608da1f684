use vstd::prelude::*;

verus! {

/// The shape of an evaluation: an operand (by its position among the
/// operands of one expression), or an operator applied to two
/// sub-expressions, the left one first.
#[derive(Debug, PartialEq, Eq)]
pub enum Expr {
    Operand(usize),
    Apply(char, Box<Expr>, Box<Expr>),
}

/// Operators reduced in the first pass.
pub open spec fn is_power(c: char) -> bool {
    c == '^'
}

/// Operators reduced in the second pass.
pub open spec fn is_product(c: char) -> bool {
    c == '*' || c == '/' || c == '%'
}

/// Whether `c` belongs to pass `level` (0: exponentiation, 1: products).
pub open spec fn binds_at(c: char, level: int) -> bool {
    if level == 0 {
        is_power(c)
    } else {
        is_product(c)
    }
}

/// Position of the leftmost operator of pass `level` at or after `from`,
/// or `ops.len()` where there is none.
pub open spec fn first_at(ops: Seq<char>, level: int, from: int) -> int
    decreases ops.len() - from,
{
    if from < 0 || from >= ops.len() {
        ops.len() as int
    } else if binds_at(ops[from], level) {
        from
    } else {
        first_at(ops, level, from + 1)
    }
}

/// Operator `i` applied to operands `i` and `i + 1`.
pub open spec fn merged(xs: Seq<Expr>, ops: Seq<char>, i: int) -> Expr {
    Expr::Apply(ops[i], Box::new(xs[i]), Box::new(xs[i + 1]))
}

/// The operands after applying `ops[i]` to operands `i` and `i + 1`.
pub open spec fn combine(xs: Seq<Expr>, ops: Seq<char>, i: int) -> Seq<Expr> {
    xs.subrange(0, i).push(merged(xs, ops, i)) + xs.subrange(i + 2, xs.len() as int)
}

/// One pass: repeatedly apply the leftmost operator of the pass until none is left.
pub open spec fn reduce_level(xs: Seq<Expr>, ops: Seq<char>, level: int) -> (Seq<Expr>, Seq<char>)
    decreases ops.len(),
{
    let i = first_at(ops, level, 0);
    if 0 <= i < ops.len() && xs.len() == ops.len() + 1 {
        reduce_level(combine(xs, ops, i), ops.remove(i), level)
    } else {
        (xs, ops)
    }
}

/// The left-to-right fold: `((x0 op0 x1) op1 x2) ...`.
pub open spec fn fold_left(xs: Seq<Expr>, ops: Seq<char>) -> Expr
    decreases ops.len(),
{
    if ops.len() == 0 || xs.len() != ops.len() + 1 {
        xs[0]
    } else {
        Expr::Apply(
            ops.last(),
            Box::new(fold_left(xs.drop_last(), ops.drop_last())),
            Box::new(xs.last()),
        )
    }
}

/// The expression that operands `xs` joined by `ops` stand for: exponentiation
/// first, then `* / %`, each leftmost first, then everything else left to right.
pub open spec fn reduce(xs: Seq<Expr>, ops: Seq<char>) -> Expr {
    let (a, b) = reduce_level(xs, ops, 0);
    let (c, d) = reduce_level(a, b, 1);
    fold_left(c, d)
}

/// The operands `0, 1, ..., n - 1`.
pub open spec fn operands(n: nat) -> Seq<Expr> {
    Seq::new(n, |k: int| Expr::Operand(k as usize))
}

proof fn lemma_first_at_bounds(ops: Seq<char>, level: int, from: int)
    requires
        0 <= from,
    ensures
        from <= first_at(ops, level, from) <= ops.len() || from > ops.len(),
        first_at(ops, level, from) < ops.len() ==> binds_at(
            ops[first_at(ops, level, from)],
            level,
        ),
        forall|j: int|
            from <= j < first_at(ops, level, from) && j < ops.len() ==> !binds_at(
                #[trigger] ops[j],
                level,
            ),
    decreases ops.len() - from,
{
    if from < ops.len() && !binds_at(ops[from], level) {
        lemma_first_at_bounds(ops, level, from + 1);
    }
}

fn find_leftmost(syms: &Vec<char>, level: u8) -> (r: usize)
    requires
        level <= 1,
    ensures
        r == first_at(syms@, level as int, 0),
{
    let mut i: usize = 0;
    while i < syms.len()
        invariant
            i <= syms.len(),
            level <= 1,
            first_at(syms@, level as int, 0) == first_at(syms@, level as int, i as int),
        decreases syms.len() - i,
    {
        let c = syms[i];
        let hit = if level == 0 {
            c == '^'
        } else {
            c == '*' || c == '/' || c == '%'
        };
        if hit {
            return i;
        }
        i = i + 1;
    }
    i
}

/// Applies operator `i` to operands `i` and `i + 1`, leaving one operand in their place.
pub fn check_priority(nums: &mut Vec<Expr>, syms: &mut Vec<char>, i: usize)
    requires
        i < old(syms).len(),
        old(nums).len() == old(syms).len() + 1,
    ensures
        final(nums)@ == combine(old(nums)@, old(syms)@, i as int),
        final(syms)@ == old(syms)@.remove(i as int),
{
    let left = nums.remove(i);
    let right = nums.remove(i);
    let op = syms.remove(i);
    let ghost pre = nums@;
    let node = Expr::Apply(op, Box::new(left), Box::new(right));
    nums.insert(i, node);
    proof {
        pre.insert_ensures(i as int, node);
    }
    assert(nums@ =~= combine(old(nums)@, old(syms)@, i as int));
}

fn reduce_pass(nums: &mut Vec<Expr>, syms: &mut Vec<char>, level: u8)
    requires
        level <= 1,
        old(nums).len() == old(syms).len() + 1,
    ensures
        (final(nums)@, final(syms)@) == reduce_level(old(nums)@, old(syms)@, level as int),
        final(nums)@.len() == final(syms)@.len() + 1,
{
    loop
        invariant
            level <= 1,
            nums.len() == syms.len() + 1,
            reduce_level(nums@, syms@, level as int) == reduce_level(
                old(nums)@,
                old(syms)@,
                level as int,
            ),
        decreases syms.len(),
    {
        let i = find_leftmost(syms, level);
        proof {
            lemma_first_at_bounds(syms@, level as int, 0);
        }
        if i >= syms.len() {
            return ;
        }
        check_priority(nums, syms, i);
    }
}

/// Reduces operands `nums` joined by operators `syms` to one expression:
/// exponentiation first, then multiplication, division and remainder, each
/// leftmost first, then a left-to-right fold of what is left.
pub fn evaluate(nums: Vec<Expr>, syms: Vec<char>) -> (r: Expr)
    requires
        nums.len() == syms.len() + 1,
    ensures
        r == reduce(nums@, syms@),
{
    let mut nums = nums;
    let mut syms = syms;
    let ghost xs0 = nums@;
    let ghost ops0 = syms@;
    reduce_pass(&mut nums, &mut syms, 0);
    reduce_pass(&mut nums, &mut syms, 1);
    let ghost xs = nums@;
    let ghost ops = syms@;
    assert(reduce(xs0, ops0) == fold_left(xs, ops));
    let mut total = nums.remove(0);
    let mut k: usize = 0;
    while k < syms.len()
        invariant
            xs.len() == ops.len() + 1,
            syms@ == ops,
            k <= ops.len(),
            nums@ == xs.subrange(k as int + 1, xs.len() as int),
            total == fold_left(xs.subrange(0, k as int + 1), ops.subrange(0, k as int)),
        decreases ops.len() - k,
    {
        let next = nums.remove(0);
        proof {
            let xa = xs.subrange(0, k as int + 2);
            let oa = ops.subrange(0, k as int + 1);
            assert(xa.drop_last() =~= xs.subrange(0, k as int + 1));
            assert(oa.drop_last() =~= ops.subrange(0, k as int));
        }
        total = Expr::Apply(syms[k], Box::new(total), Box::new(next));
        k = k + 1;
        assert(nums@ =~= xs.subrange(k as int + 1, xs.len() as int));
    }
    assert(xs.subrange(0, k as int + 1) =~= xs);
    assert(ops.subrange(0, k as int) =~= ops);
    total
}

/// Tier of an operator: 1 for `^`, 2 for `* / %`, 3 for the rest.
pub open spec fn tier(c: char) -> nat {
    if is_power(c) {
        1
    } else if is_product(c) {
        2
    } else {
        3
    }
}

/// Tier of the operator at the root of `e`, 0 for an operand.
pub open spec fn root_tier(e: Expr) -> nat {
    match e {
        Expr::Operand(_) => 0,
        Expr::Apply(c, _, _) => tier(c),
    }
}

/// Every operator of `e` has on its left nothing of a looser tier, and on its
/// right only a tighter tier: `^` binds tighter than `* / %`, which bind tighter
/// than `+ -`, and operators of one tier group from the left.
pub open spec fn binds_tighter(e: Expr) -> bool
    decreases e,
{
    match e {
        Expr::Operand(_) => true,
        Expr::Apply(c, l, r) => root_tier(*l) <= tier(c) && root_tier(*r) < tier(c)
            && binds_tighter(*l) && binds_tighter(*r),
    }
}

/// A chain of additions and subtractions is reduced left to right:
/// `a - b + c` is `(a - b) + c`.
pub proof fn lemma_sums_fold_left(xs: Seq<Expr>, ops: Seq<char>)
    requires
        xs.len() == ops.len() + 1,
        forall|j: int| 0 <= j < ops.len() ==> ops[j] == '+' || ops[j] == '-',
    ensures
        reduce(xs, ops) == fold_left(xs, ops),
{
    lemma_first_at_bounds(ops, 0, 0);
    lemma_first_at_bounds(ops, 1, 0);
}

/// What holds of the operands during pass `level`: each is well grouped, none is
/// looser than the pass, and one of the pass's own tier stands only where no
/// operator of the pass precedes it.
pub open spec fn pass_inv(xs: Seq<Expr>, ops: Seq<char>, level: int) -> bool {
    &&& xs.len() == ops.len() + 1
    &&& forall|k: int|
        0 <= k < xs.len() ==> binds_tighter(#[trigger] xs[k]) && root_tier(xs[k]) <= level + 1
    &&& forall|k: int, j: int|
        0 <= j < k < xs.len() && root_tier(#[trigger] xs[k]) == level + 1 ==> !binds_at(
            #[trigger] ops[j],
            level,
        )
    &&& level == 1 ==> forall|j: int| 0 <= j < ops.len() ==> !is_power(#[trigger] ops[j])
}

proof fn lemma_pass_keeps(xs: Seq<Expr>, ops: Seq<char>, level: int)
    requires
        0 <= level <= 1,
        pass_inv(xs, ops, level),
    ensures
        pass_inv(reduce_level(xs, ops, level).0, reduce_level(xs, ops, level).1, level),
        forall|j: int|
            0 <= j < reduce_level(xs, ops, level).1.len() ==> !binds_at(
                #[trigger] reduce_level(xs, ops, level).1[j],
                level,
            ),
    decreases ops.len(),
{
    lemma_first_at_bounds(ops, level, 0);
    let i = first_at(ops, level, 0);
    if i < ops.len() {
        let xs2 = combine(xs, ops, i);
        let ops2 = ops.remove(i);
        let node = Expr::Apply(ops[i], Box::new(xs[i]), Box::new(xs[i + 1]));
        assert(root_tier(xs[i + 1]) != level + 1);
        assert(binds_tighter(node));
        assert(xs2.len() == ops2.len() + 1);
        assert forall|k: int| 0 <= k < xs2.len() implies binds_tighter(#[trigger] xs2[k])
            && root_tier(xs2[k]) <= level + 1 by {
            if k < i {
                assert(xs2[k] == xs[k]);
            } else if k == i {
                assert(xs2[k] == node);
            } else {
                assert(xs2[k] == xs[k + 1]);
            }
        }
        assert forall|k: int, j: int|
            0 <= j < k < xs2.len() && root_tier(#[trigger] xs2[k]) == level + 1 implies !binds_at(
            #[trigger] ops2[j],
            level,
        ) by {
            if k < i {
                assert(xs2[k] == xs[k]);
                assert(ops2[j] == ops[j]);
            } else if k == i {
                assert(ops2[j] == ops[j]);
            } else {
                assert(xs2[k] == xs[k + 1]);
                assert(!binds_at(ops[i], level));
            }
        }
        if level == 1 {
            assert forall|j: int| 0 <= j < ops2.len() implies !is_power(#[trigger] ops2[j]) by {
                if j < i {
                    assert(ops2[j] == ops[j]);
                } else {
                    assert(ops2[j] == ops[j + 1]);
                }
            }
        }
        lemma_pass_keeps(xs2, ops2, level);
    }
}

proof fn lemma_fold_binds_tighter(xs: Seq<Expr>, ops: Seq<char>)
    requires
        xs.len() == ops.len() + 1,
        forall|k: int|
            0 <= k < xs.len() ==> binds_tighter(#[trigger] xs[k]) && root_tier(xs[k]) <= 2,
        forall|j: int| 0 <= j < ops.len() ==> tier(#[trigger] ops[j]) == 3,
    ensures
        binds_tighter(fold_left(xs, ops)),
    decreases ops.len(),
{
    if ops.len() > 0 {
        let xs2 = xs.drop_last();
        let ops2 = ops.drop_last();
        assert forall|k: int| 0 <= k < xs2.len() implies binds_tighter(#[trigger] xs2[k])
            && root_tier(xs2[k]) <= 2 by {
            assert(xs2[k] == xs[k]);
        }
        assert forall|j: int| 0 <= j < ops2.len() implies tier(#[trigger] ops2[j]) == 3 by {
            assert(ops2[j] == ops[j]);
        }
        lemma_fold_binds_tighter(xs2, ops2);
        assert(tier(ops[ops.len() - 1]) == 3);
    }
}

/// Reducing operands joined by any operators yields an expression in which `^`
/// binds tighter than `* / %`, which bind tighter than everything else.
pub proof fn lemma_reduce_binds_tighter(n: nat, ops: Seq<char>)
    requires
        n == ops.len() + 1,
    ensures
        binds_tighter(reduce(operands(n), ops)),
{
    let xs = operands(n);
    assert forall|k: int| 0 <= k < xs.len() implies root_tier(#[trigger] xs[k]) == 0 by {}
    assert(pass_inv(xs, ops, 0));
    lemma_pass_keeps(xs, ops, 0);
    let (a, b) = reduce_level(xs, ops, 0);
    assert(pass_inv(a, b, 1));
    lemma_pass_keeps(a, b, 1);
    let (c, d) = reduce_level(a, b, 1);
    assert forall|j: int| 0 <= j < d.len() implies tier(#[trigger] d[j]) == 3 by {
        assert(!is_product(d[j]));
        assert(!is_power(d[j]));
    }
    lemma_fold_binds_tighter(c, d);
}

/// The operands of `e`, left to right.
pub open spec fn leaves_of(e: Expr) -> Seq<usize>
    decreases e,
{
    match e {
        Expr::Operand(k) => seq![k],
        Expr::Apply(_, l, r) => leaves_of(*l) + leaves_of(*r),
    }
}

/// The operators of `e`, left to right.
pub open spec fn ops_of(e: Expr) -> Seq<char>
    decreases e,
{
    match e {
        Expr::Operand(_) => Seq::empty(),
        Expr::Apply(c, l, r) => ops_of(*l).push(c) + ops_of(*r),
    }
}

/// The operands of all of `xs`, left to right.
pub open spec fn joined_leaves(xs: Seq<Expr>) -> Seq<usize>
    decreases xs.len(),
{
    if xs.len() == 0 {
        Seq::empty()
    } else {
        joined_leaves(xs.drop_last()) + leaves_of(xs.last())
    }
}

/// The operators of all of `xs`, left to right, with `ops[k]` between
/// `xs[k]` and `xs[k + 1]`.
pub open spec fn joined_ops(xs: Seq<Expr>, ops: Seq<char>) -> Seq<char>
    decreases xs.len(),
{
    if xs.len() <= 1 || ops.len() == 0 {
        if xs.len() == 0 {
            Seq::empty()
        } else {
            ops_of(xs[0])
        }
    } else {
        joined_ops(xs.drop_last(), ops.drop_last()).push(ops.last()) + ops_of(xs.last())
    }
}

proof fn lemma_joined_leaves_concat(a: Seq<Expr>, b: Seq<Expr>)
    ensures
        joined_leaves(a + b) == joined_leaves(a) + joined_leaves(b),
    decreases b.len(),
{
    if b.len() == 0 {
        assert(a + b =~= a);
        assert(joined_leaves(a) + joined_leaves(b) =~= joined_leaves(a));
    } else {
        assert((a + b).drop_last() =~= a + b.drop_last());
        lemma_joined_leaves_concat(a, b.drop_last());
        assert(joined_leaves(a + b) =~= joined_leaves(a) + joined_leaves(b));
    }
}

proof fn lemma_joined_ops_split(xs: Seq<Expr>, ops: Seq<char>, i: int)
    requires
        xs.len() == ops.len() + 1,
        0 <= i < ops.len(),
    ensures
        joined_ops(xs, ops) == joined_ops(xs.take(i + 1), ops.take(i)).push(ops[i]) + joined_ops(
            xs.skip(i + 1),
            ops.skip(i + 1),
        ),
    decreases xs.len(),
{
    let n = ops.len() as int;
    if i == n - 1 {
        assert(xs.take(i + 1) =~= xs.drop_last());
        assert(ops.take(i) =~= ops.drop_last());
        assert(xs.skip(i + 1) =~= seq![xs.last()]);
        assert(joined_ops(xs.skip(i + 1), ops.skip(i + 1)) == ops_of(xs.last()));
    } else {
        let xs1 = xs.drop_last();
        let ops1 = ops.drop_last();
        lemma_joined_ops_split(xs1, ops1, i);
        assert(xs1.take(i + 1) =~= xs.take(i + 1));
        assert(ops1.take(i) =~= ops.take(i));
        let xr = xs.skip(i + 1);
        let or = ops.skip(i + 1);
        assert(xr.drop_last() =~= xs1.skip(i + 1));
        assert(or.drop_last() =~= ops1.skip(i + 1));
        assert(xr.last() == xs.last());
        assert(or.last() == ops.last());
        assert(joined_ops(xr, or) == joined_ops(xs1.skip(i + 1), ops1.skip(i + 1)).push(ops.last())
            + ops_of(xs.last()));
        assert(joined_ops(xs, ops) =~= joined_ops(xs.take(i + 1), ops.take(i)).push(ops[i])
            + joined_ops(xr, or));
    }
}

proof fn lemma_joined_ops_merge(xs: Seq<Expr>, ops: Seq<char>, i: int)
    requires
        xs.len() == ops.len() + 1,
        0 <= i < ops.len(),
    ensures
        joined_ops(xs.take(i).push(merged(xs, ops, i)), ops.take(i)) == joined_ops(
            xs.take(i + 2),
            ops.take(i + 1),
        ),
{
    let node = merged(xs, ops, i);
    let a = xs.take(i).push(node);
    let b = xs.take(i + 2);
    let bo = ops.take(i + 1);
    assert(b.drop_last() =~= xs.take(i + 1));
    assert(bo.drop_last() =~= ops.take(i));
    assert(joined_ops(b, bo) == joined_ops(xs.take(i + 1), ops.take(i)).push(ops[i]) + ops_of(
        xs[i + 1],
    ));
    assert(ops_of(node) == ops_of(xs[i]).push(ops[i]) + ops_of(xs[i + 1]));
    if i == 0 {
        assert(xs.take(1) =~= seq![xs[0]]);
        assert(a =~= seq![node]);
        assert(joined_ops(a, ops.take(i)) == ops_of(node));
        assert(joined_ops(a, ops.take(i)) =~= joined_ops(b, bo));
    } else {
        let c = xs.take(i + 1);
        assert(c.drop_last() =~= xs.take(i));
        assert(ops.take(i).drop_last() =~= ops.take(i - 1));
        assert(a.drop_last() =~= xs.take(i));
        assert(joined_ops(c, ops.take(i)) == joined_ops(xs.take(i), ops.take(i - 1)).push(
            ops[i - 1],
        ) + ops_of(xs[i]));
        assert(joined_ops(a, ops.take(i)) == joined_ops(xs.take(i), ops.take(i - 1)).push(
            ops[i - 1],
        ) + ops_of(node));
        assert(joined_ops(a, ops.take(i)) =~= joined_ops(b, bo));
    }
}

proof fn lemma_combine_keeps_order(xs: Seq<Expr>, ops: Seq<char>, i: int)
    requires
        xs.len() == ops.len() + 1,
        0 <= i < ops.len(),
    ensures
        joined_leaves(combine(xs, ops, i)) == joined_leaves(xs),
        joined_ops(combine(xs, ops, i), ops.remove(i)) == joined_ops(xs, ops),
        combine(xs, ops, i).len() == ops.remove(i).len() + 1,
{
    let node = merged(xs, ops, i);
    let xs2 = combine(xs, ops, i);
    let ops2 = ops.remove(i);
    let pre = xs.take(i);
    let post = xs.skip(i + 2);
    assert(xs2 =~= pre.push(node) + post);
    assert(xs =~= pre.push(xs[i]).push(xs[i + 1]) + post);
    lemma_joined_leaves_concat(pre.push(node), post);
    lemma_joined_leaves_concat(pre.push(xs[i]).push(xs[i + 1]), post);
    assert(pre.push(xs[i]).push(xs[i + 1]).drop_last() =~= pre.push(xs[i]));
    assert(pre.push(xs[i]).drop_last() =~= pre);
    assert(pre.push(node).drop_last() =~= pre);
    assert(leaves_of(node) == leaves_of(xs[i]) + leaves_of(xs[i + 1]));
    assert(joined_leaves(pre.push(node)) == joined_leaves(pre) + leaves_of(node));
    assert(joined_leaves(pre.push(xs[i])) == joined_leaves(pre) + leaves_of(xs[i]));
    assert(joined_leaves(pre.push(xs[i]).push(xs[i + 1])) == joined_leaves(pre.push(xs[i]))
        + leaves_of(xs[i + 1]));
    assert(joined_leaves(pre.push(node)) =~= joined_leaves(pre.push(xs[i]).push(xs[i + 1])));
    lemma_joined_ops_merge(xs, ops, i);
    if i + 1 < ops.len() {
        lemma_joined_ops_split(xs, ops, i + 1);
        lemma_joined_ops_split(xs2, ops2, i);
        assert(xs2.take(i + 1) =~= pre.push(node));
        assert(ops2.take(i) =~= ops.take(i));
        assert(xs2.skip(i + 1) =~= xs.skip(i + 2));
        assert(ops2.skip(i + 1) =~= ops.skip(i + 2));
        assert(ops2[i] == ops[i + 1]);
    } else {
        assert(xs2 =~= pre.push(node));
        assert(ops2 =~= ops.take(i));
        assert(xs.take(i + 2) =~= xs);
        assert(ops.take(i + 1) =~= ops);
    }
}

proof fn lemma_pass_keeps_order(xs: Seq<Expr>, ops: Seq<char>, level: int)
    requires
        xs.len() == ops.len() + 1,
    ensures
        joined_leaves(reduce_level(xs, ops, level).0) == joined_leaves(xs),
        joined_ops(reduce_level(xs, ops, level).0, reduce_level(xs, ops, level).1) == joined_ops(
            xs,
            ops,
        ),
        reduce_level(xs, ops, level).0.len() == reduce_level(xs, ops, level).1.len() + 1,
    decreases ops.len(),
{
    let i = first_at(ops, level, 0);
    if 0 <= i < ops.len() {
        lemma_combine_keeps_order(xs, ops, i);
        lemma_pass_keeps_order(combine(xs, ops, i), ops.remove(i), level);
    }
}

proof fn lemma_fold_keeps_order(xs: Seq<Expr>, ops: Seq<char>)
    requires
        xs.len() == ops.len() + 1,
    ensures
        leaves_of(fold_left(xs, ops)) == joined_leaves(xs),
        ops_of(fold_left(xs, ops)) == joined_ops(xs, ops),
    decreases ops.len(),
{
    if ops.len() == 0 {
        assert(xs.drop_last() =~= Seq::<Expr>::empty());
        assert(joined_leaves(Seq::<Expr>::empty()) == Seq::<usize>::empty());
        assert(joined_leaves(xs) =~= leaves_of(xs[0]));
    } else {
        lemma_fold_keeps_order(xs.drop_last(), ops.drop_last());
    }
}

proof fn lemma_operands_order(n: nat, ops: Seq<char>)
    requires
        n == ops.len() + 1,
    ensures
        joined_leaves(operands(n)) == Seq::new(n, |k: int| k as usize),
        joined_ops(operands(n), ops) == ops,
    decreases n,
{
    let xs = operands(n);
    if n == 1 {
        assert(xs.drop_last() =~= Seq::<Expr>::empty());
        assert(joined_leaves(Seq::<Expr>::empty()) == Seq::<usize>::empty());
        assert(xs.last() == Expr::Operand(0));
        assert(leaves_of(Expr::Operand(0)) == seq![0usize]);
        assert(joined_leaves(xs) =~= Seq::new(n, |k: int| k as usize));
        assert(joined_ops(xs, ops) =~= ops);
    } else {
        assert(xs.drop_last() =~= operands((n - 1) as nat));
        lemma_operands_order((n - 1) as nat, ops.drop_last());
        assert(xs.last() == Expr::Operand((n - 1) as usize));
        assert(leaves_of(Expr::Operand((n - 1) as usize)) == seq![(n - 1) as usize]);
        assert(joined_leaves(xs) =~= Seq::new(n, |k: int| k as usize));
        assert(joined_ops(xs, ops) =~= ops);
    }
}

/// Reduction only groups: the operands of the result, read left to right,
/// are `0, 1, ..., n - 1`, and its operators, read left to right, are `ops`.
pub proof fn lemma_reduce_keeps_order(n: nat, ops: Seq<char>)
    requires
        n == ops.len() + 1,
    ensures
        leaves_of(reduce(operands(n), ops)) == Seq::new(n, |k: int| k as usize),
        ops_of(reduce(operands(n), ops)) == ops,
{
    let xs = operands(n);
    lemma_operands_order(n, ops);
    lemma_pass_keeps_order(xs, ops, 0);
    let (a, b) = reduce_level(xs, ops, 0);
    lemma_pass_keeps_order(a, b, 1);
    let (c, d) = reduce_level(a, b, 1);
    lemma_fold_keeps_order(c, d);
}

} // verus!
