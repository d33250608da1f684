use vstd::prelude::*;
use crate::expr::{Expr, evaluate, reduce, operands, fold_left, lemma_sums_fold_left};

verus! {

/// Why an expression has no value.
#[derive(Debug, Clone, Copy, PartialEq, Eq, Structural)]
pub enum ParseError {
    /// A `)` without its `(`, or a `(` never closed.
    UnbalancedParenthesis,
    /// An exponent that is missing or cannot be made an integer.
    InvalidExponent,
    /// An operator outside `+ - * / % ^`.
    InvalidOperator,
    /// An operand whose text is not a number, or that is missing.
    MalformedNumber,
}

/// Whether `c` is one of the binary operators that separate operands.
pub open spec fn is_operator(c: char) -> bool {
    c == '+' || c == '-' || c == '*' || c == '/' || c == '%' || c == '^'
}

/// Whether `c` is a character of a number literal.
pub open spec fn is_number_char(c: char) -> bool {
    ('0' <= c && c <= '9') || c == '.'
}

/// Checks if `c` is an arithmetic operator.
pub fn is_sym(c: char) -> (r: bool)
    ensures
        r == is_operator(c),
{
    c == '+' || c == '-' || c == '*' || c == '/' || c == '%' || c == '^'
}

/// What a character does to the nesting depth.
pub open spec fn delta(c: char) -> int {
    if c == '(' {
        1
    } else if c == ')' {
        -1
    } else {
        0
    }
}

/// Nesting depth after reading all of `s`.
pub open spec fn depth_of(s: Seq<char>) -> int
    decreases s.len(),
{
    if s.len() == 0 {
        0
    } else {
        depth_of(s.drop_last()) + delta(s.last())
    }
}

/// Every `)` closes an earlier `(`, and every `(` is closed.
pub open spec fn balanced(s: Seq<char>) -> bool {
    &&& depth_of(s) == 0
    &&& forall|k: int| 0 <= k <= s.len() ==> depth_of(#[trigger] s.take(k)) >= 0
}

proof fn lemma_depth_step(s: Seq<char>, i: int)
    requires
        0 <= i < s.len(),
    ensures
        depth_of(s.take(i + 1)) == depth_of(s.take(i)) + delta(s[i]),
{
    assert(s.take(i + 1).drop_last() =~= s.take(i));
}

proof fn lemma_depth_bound(s: Seq<char>)
    ensures
        depth_of(s) <= s.len(),
    decreases s.len(),
{
    if s.len() > 0 {
        lemma_depth_bound(s.drop_last());
    }
}

/// The characters of `s`, in order.
pub fn chars_of(s: &str) -> (r: Vec<char>)
    ensures
        r@ == s@,
{
    let mut v: Vec<char> = Vec::new();
    for c in it: s.chars()
        invariant
            it.seq() == s@,
            v@ == s@.take(it.index() as int),
    {
        v.push(c);
        assert(v@ =~= s@.take(it.index() as int + 1));
    }
    assert(s@.take(s@.len() as int) =~= s@);
    v
}

fn copy_chars(v: &Vec<char>) -> (r: Vec<char>)
    ensures
        r@ == v@,
{
    let mut out: Vec<char> = Vec::new();
    let mut i: usize = 0;
    while i < v.len()
        invariant
            i <= v.len(),
            out@ == v@.take(i as int),
        decreases v.len() - i,
    {
        out.push(v[i]);
        i = i + 1;
        assert(out@ =~= v@.take(i as int));
    }
    assert(v@.take(i as int) =~= v@);
    out
}

/// Ensure that the given equation has balanced parenthesis.
pub fn check_paren_count(passed_eq: &str) -> (r: bool)
    ensures
        r == balanced(passed_eq@),
{
    let text = chars_of(passed_eq);
    let ghost s = text@;
    let mut count: usize = 0;
    let mut i: usize = 0;
    assert(s.take(0) =~= Seq::<char>::empty());
    while i < text.len()
        invariant
            s == text@,
            s == passed_eq@,
            i <= s.len(),
            count as int == depth_of(s.take(i as int)),
            count <= i,
            forall|k: int| 0 <= k <= i ==> depth_of(#[trigger] s.take(k)) >= 0,
        decreases s.len() - i,
    {
        let c = text[i];
        proof {
            lemma_depth_step(s, i as int);
        }
        if c == '(' {
            count = count + 1;
        } else if c == ')' {
            if count == 0 {
                assert(depth_of(s.take(i as int + 1)) < 0);
                return false;
            }
            count = count - 1;
        }
        i = i + 1;
    }
    assert(s.take(i as int) =~= s);
    count == 0
}

/// What has been read of an expression: the nesting depth, the text of the
/// operand being read, and the operands and operators completed so far.
pub struct Tokens {
    pub depth: nat,
    pub pending: Seq<char>,
    pub literals: Seq<Seq<char>>,
    pub operators: Seq<char>,
}

/// The state before anything is read.
pub open spec fn no_tokens() -> Tokens {
    Tokens { depth: 0, pending: Seq::empty(), literals: Seq::empty(), operators: Seq::empty() }
}

/// Reading one character. Inside parentheses characters are kept as they
/// stand; the `)` that closes the outermost group leaves its text pending,
/// or `0` for an empty group. Outside, an operator completes the pending
/// operand (`0` if there is none), and digits and `.` extend it; anything
/// else is skipped.
pub open spec fn step(t: Tokens, c: char) -> Tokens {
    if c == ')' {
        if t.depth == 0 {
            t
        } else if t.depth == 1 {
            Tokens {
                depth: 0,
                pending: if t.pending.len() == 0 {
                    seq!['0']
                } else {
                    t.pending
                },
                ..t
            }
        } else {
            Tokens { depth: (t.depth - 1) as nat, pending: t.pending.push(c), ..t }
        }
    } else if c == '(' {
        Tokens {
            depth: t.depth + 1,
            pending: if t.depth > 0 {
                t.pending.push(c)
            } else {
                t.pending
            },
            ..t
        }
    } else if t.depth > 0 {
        Tokens { pending: t.pending.push(c), ..t }
    } else if is_operator(c) {
        Tokens {
            pending: Seq::empty(),
            literals: t.literals.push(
                if t.pending.len() == 0 {
                    seq!['0']
                } else {
                    t.pending
                },
            ),
            operators: t.operators.push(c),
            ..t
        }
    } else if is_number_char(c) {
        Tokens { pending: t.pending.push(c), ..t }
    } else {
        t
    }
}

/// Whether reading `c` closes an outermost group whose text must first be evaluated.
pub open spec fn closes_group(t: Tokens, c: char) -> bool {
    c == ')' && t.depth == 1 && t.pending.len() > 0
}

/// Reading `s` from `pos` on, up to the end or just past the first `)` that
/// closes a non-empty outermost group. Gives the tokens, the position reached
/// and whether it stopped at such a group.
pub open spec fn run(t: Tokens, s: Seq<char>, pos: int) -> (Tokens, int, bool)
    decreases s.len() - pos,
{
    if pos < 0 || pos >= s.len() {
        (t, pos, false)
    } else if closes_group(t, s[pos]) {
        (step(t, s[pos]), pos + 1, true)
    } else {
        run(step(t, s[pos]), s, pos + 1)
    }
}

/// The operands and the shape of the expression that the tokens stand for,
/// once the whole text is read: none for an empty expression, an error where
/// the last operator has no operand after it.
pub open spec fn outcome(t: Tokens) -> Result<(Seq<Seq<char>>, Option<Expr>), ParseError> {
    let lits = if t.pending.len() > 0 {
        t.literals.push(t.pending)
    } else {
        t.literals
    };
    if lits.len() == 0 {
        Ok((lits, None))
    } else if lits.len() == t.operators.len() {
        if t.operators.last() == '^' {
            Err(ParseError::InvalidExponent)
        } else {
            Err(ParseError::MalformedNumber)
        }
    } else {
        Ok((lits, Some(reduce(operands(lits.len()), t.operators))))
    }
}

/// The tokens after reading `(` and the first `k` characters of `inner`,
/// from tokens `t` outside any group with nothing pending.
pub open spec fn inside_group(t: Tokens, inner: Seq<char>, k: int) -> Tokens {
    Tokens { depth: (1 + depth_of(inner.take(k))) as nat, pending: inner.take(k), ..t }
}

proof fn lemma_group_rest(t: Tokens, inner: Seq<char>, rest: Seq<char>, k: int)
    requires
        t.depth == 0,
        balanced(inner),
        inner.len() > 0,
        0 <= k <= inner.len(),
    ensures
        run(inside_group(t, inner, k), seq!['('] + inner + seq![')'] + rest, k + 1) == (
        Tokens { depth: 0, pending: inner, ..t },
        inner.len() + 2int,
        true,
    ),
    decreases inner.len() - k,
{
    let s = seq!['('] + inner + seq![')'] + rest;
    let tk = inside_group(t, inner, k);
    assert(inner.take(inner.len() as int) =~= inner);
    if k == inner.len() {
        assert(s[k + 1] == ')');
        assert(closes_group(tk, s[k + 1]));
        assert(step(tk, ')') == Tokens { depth: 0, pending: inner, ..t });
    } else {
        let c = inner[k];
        assert(s[k + 1] == c);
        lemma_depth_step(inner, k);
        assert(depth_of(inner.take(k + 1)) >= 0);
        assert(depth_of(inner.take(k)) >= 0);
        assert(inner.take(k + 1) =~= inner.take(k).push(c));
        assert(!closes_group(tk, c));
        assert(step(tk, c) == inside_group(t, inner, k + 1));
        lemma_group_rest(t, inner, rest, k + 1);
    }
}

/// A parenthesized group is read whole before anything after it: from a point
/// outside any group with nothing pending, reading `(`, a balanced non-empty
/// `inner` and `)` stops just past the `)` and leaves exactly `inner` pending,
/// to be evaluated on its own, with no operand or operator completed meanwhile.
pub proof fn lemma_group_read_whole(t: Tokens, inner: Seq<char>, rest: Seq<char>)
    requires
        t.depth == 0,
        t.pending.len() == 0,
        balanced(inner),
        inner.len() > 0,
    ensures
        run(t, seq!['('] + inner + seq![')'] + rest, 0) == (
        Tokens { depth: 0, pending: inner, ..t },
        inner.len() + 2int,
        true,
    ),
{
    let s = seq!['('] + inner + seq![')'] + rest;
    assert(s[0] == '(');
    assert(inner.take(0) =~= Seq::<char>::empty());
    assert(t.pending =~= Seq::<char>::empty());
    assert(step(t, '(') == inside_group(t, inner, 0));
    lemma_group_rest(t, inner, rest, 0);
}

/// Every operator of `ops` is `+` or `-`.
pub open spec fn sums_only(ops: Seq<char>) -> bool {
    forall|j: int| 0 <= j < ops.len() ==> #[trigger] ops[j] == '+' || ops[j] == '-'
}

/// Every operator character of `s` from `pos` on is `+` or `-`.
pub open spec fn sums_only_from(s: Seq<char>, pos: int) -> bool {
    forall|j: int| pos <= j < s.len() && is_operator(#[trigger] s[j]) ==> s[j] == '+' || s[j] == '-'
}

/// Reading completes only operators that stand in the text: where the text
/// holds no operator but `+` and `-`, the operators read are `+` and `-` alone.
pub proof fn lemma_read_sums_only(t: Tokens, s: Seq<char>, pos: int)
    requires
        sums_only(t.operators),
        sums_only_from(s, pos),
    ensures
        sums_only(run(t, s, pos).0.operators),
    decreases s.len() - pos,
{
    if 0 <= pos < s.len() {
        let c = s[pos];
        let t2 = step(t, c);
        assert(sums_only(t2.operators)) by {
            if t.depth == 0 && c != ')' && c != '(' && is_operator(c) {
                assert forall|j: int| 0 <= j < t2.operators.len() implies #[trigger] t2.operators[j]
                    == '+' || t2.operators[j] == '-' by {
                    if j < t.operators.len() {
                        assert(t2.operators[j] == t.operators[j]);
                    }
                }
            }
        }
        if !closes_group(t, c) {
            lemma_read_sums_only(t2, s, pos + 1);
        }
    }
}

/// An expression whose operators are only `+` and `-` is reduced left to
/// right: `a - b + c` is `(a - b) + c`.
pub proof fn lemma_sums_read_left_to_right(t: Tokens)
    requires
        sums_only(t.operators),
    ensures
        outcome(t) matches Ok((lits, Some(e))) ==> e == fold_left(
            operands(lits.len()),
            t.operators,
        ),
{
    let lits = if t.pending.len() > 0 {
        t.literals.push(t.pending)
    } else {
        t.literals
    };
    if lits.len() > 0 && lits.len() == t.operators.len() + 1 {
        lemma_sums_fold_left(operands(lits.len()), t.operators);
    }
}

/// A scanner, seen from outside: the text, how far it has been read, the
/// tokens, and whether it waits for the value of a group.
pub struct ScanView {
    pub text: Seq<char>,
    pub pos: nat,
    pub tokens: Tokens,
    pub waiting: bool,
}

/// The scanner as `start` makes it for `s`.
pub open spec fn initial(s: Seq<char>) -> ScanView {
    ScanView { text: s, pos: 0, tokens: no_tokens(), waiting: false }
}

/// Reads an expression left to right. A parenthesized group is handed out as
/// text, to be evaluated by the caller; its value comes back as text and
/// stands for the group from then on.
pub struct Scanner {
    text: Vec<char>,
    pos: usize,
    depth: usize,
    pending: Vec<char>,
    literals: Vec<Vec<char>>,
    operators: Vec<char>,
    waiting: bool,
}

/// Operands of an expression as text, and how they combine.
#[derive(Debug)]
pub struct Reduction {
    pub literals: Vec<Vec<char>>,
    pub tree: Option<Expr>,
}

impl View for Scanner {
    type V = ScanView;

    closed spec fn view(&self) -> ScanView {
        ScanView {
            text: self.text@,
            pos: self.pos as nat,
            tokens: Tokens {
                depth: self.depth as nat,
                pending: self.pending@,
                literals: self.literals.deep_view(),
                operators: self.operators@,
            },
            waiting: self.waiting,
        }
    }
}

impl Scanner {
    #[verifier::type_invariant]
    spec fn inv(self) -> bool {
        &&& self.pos <= self.text.len()
        &&& balanced(self.text@)
        &&& self.depth as int == depth_of(self.text@.take(self.pos as int))
        &&& self.literals.len() == self.operators.len()
        &&& self.waiting ==> self.depth == 0
    }

    fn empty() -> (r: Scanner) {
        assert(Seq::<char>::empty().take(0) =~= Seq::<char>::empty());
        Scanner {
            text: Vec::new(),
            pos: 0,
            depth: 0,
            pending: Vec::new(),
            literals: Vec::new(),
            operators: Vec::new(),
            waiting: false,
        }
    }

    /// A scanner at the start of `passed_eq`, if its parentheses are balanced.
    pub fn start(passed_eq: &str) -> (r: Result<Scanner, ParseError>)
        ensures
            r is Err <==> !balanced(passed_eq@),
            r matches Err(e) ==> e == ParseError::UnbalancedParenthesis,
            r matches Ok(sc) ==> sc@ == initial(passed_eq@),
    {
        if !check_paren_count(passed_eq) {
            return Err(ParseError::UnbalancedParenthesis);
        }
        let text = chars_of(passed_eq);
        assert(text@.take(0) =~= Seq::<char>::empty());
        let sc = Scanner {
            text,
            pos: 0,
            depth: 0,
            pending: Vec::new(),
            literals: Vec::new(),
            operators: Vec::new(),
            waiting: false,
        };
        assert(sc@.tokens.literals =~= Seq::<Seq<char>>::empty());
        assert(sc@ == initial(passed_eq@));
        Ok(sc)
    }

    /// Reads on until the end of the text, or just past a `)` that closes a
    /// non-empty outermost group; then the group's text is returned and the
    /// scanner waits for its value. A waiting scanner stays as it is and
    /// returns that text again.
    pub fn advance(&mut self) -> (r: Option<Vec<char>>)
        ensures
            final(self)@.text == old(self)@.text,
            old(self)@.waiting ==> final(self)@ == old(self)@,
            !old(self)@.waiting ==> run(old(self)@.tokens, old(self)@.text, old(self)@.pos as int)
                == (final(self)@.tokens, final(self)@.pos as int, final(self)@.waiting),
            r is Some <==> final(self)@.waiting,
            r matches Some(v) ==> v@ == final(self)@.tokens.pending,
            !final(self)@.waiting ==> final(self)@.pos == final(self)@.text.len(),
    {
        proof {
            use_type_invariant(&*self);
        }
        if self.waiting {
            return Some(copy_chars(&self.pending));
        }
        let mut st = Scanner::empty();
        std::mem::swap(&mut st, self);
        let Scanner { text, mut pos, mut depth, mut pending, mut literals, mut operators, waiting: _ } = st;
        let ghost s = text@;
        let ghost start = Tokens {
            depth: depth as nat,
            pending: pending@,
            literals: literals.deep_view(),
            operators: operators@,
        };
        let ghost goal = run(start, s, pos as int);
        let mut stopped = false;
        while pos < text.len() && !stopped
            invariant
                s == text@,
                pos <= s.len(),
                balanced(s),
                depth as int == depth_of(s.take(pos as int)),
                literals.len() == operators.len(),
                stopped ==> depth == 0 && (Tokens {
                    depth: depth as nat,
                    pending: pending@,
                    literals: literals.deep_view(),
                    operators: operators@,
                }, pos as int, true) == goal,
                !stopped ==> run(
                    Tokens {
                        depth: depth as nat,
                        pending: pending@,
                        literals: literals.deep_view(),
                        operators: operators@,
                    },
                    s,
                    pos as int,
                ) == goal,
            decreases s.len() - pos,
        {
            let c = text[pos];
            let ghost before = Tokens {
                depth: depth as nat,
                pending: pending@,
                literals: literals.deep_view(),
                operators: operators@,
            };
            proof {
                lemma_depth_step(s, pos as int);
                lemma_depth_bound(s.take(pos as int));
                assert(depth_of(s.take(pos as int + 1)) >= 0);
            }
            let closing = c == ')' && depth == 1 && pending.len() > 0;
            if c == ')' {
                if depth == 1 {
                    if pending.len() == 0 {
                        pending.push('0');
                        assert(pending@ =~= seq!['0']);
                    }
                } else {
                    pending.push(c);
                }
                depth = depth - 1;
            } else if c == '(' {
                if depth > 0 {
                    pending.push(c);
                }
                depth = depth + 1;
            } else if depth > 0 {
                pending.push(c);
            } else if is_sym(c) {
                let mut lit: Vec<char> = Vec::new();
                std::mem::swap(&mut lit, &mut pending);
                if lit.len() == 0 {
                    lit.push('0');
                    assert(lit@ =~= seq!['0']);
                }
                let ghost prev = literals.deep_view();
                assert(lit.deep_view() =~= lit@);
                literals.push(lit);
                assert(literals.deep_view() =~= prev.push(lit@));
                operators.push(c);
            } else if ('0' <= c && c <= '9') || c == '.' {
                pending.push(c);
            }
            pos = pos + 1;
            let ghost after = Tokens {
                depth: depth as nat,
                pending: pending@,
                literals: literals.deep_view(),
                operators: operators@,
            };
            assert(after == step(before, c));
            if closing {
                stopped = true;
            }
        }
        let ghost fin = Tokens {
            depth: depth as nat,
            pending: pending@,
            literals: literals.deep_view(),
            operators: operators@,
        };
        proof {
            if !stopped {
                assert(pos == s.len());
                assert(run(fin, s, pos as int) == (fin, pos as int, false));
                assert(s.take(pos as int) =~= s);
            }
        }
        let out = if stopped {
            Some(copy_chars(&pending))
        } else {
            None
        };
        *self = Scanner { text, pos, depth, pending, literals, operators, waiting: stopped };
        out
    }

    /// Gives a waiting scanner the value of the group it handed out, as text;
    /// it stands as the pending operand from then on. A scanner that does not
    /// wait stays as it is.
    pub fn resume(&mut self, value: Vec<char>)
        ensures
            !old(self)@.waiting ==> final(self)@ == old(self)@,
            old(self)@.waiting ==> final(self)@ == (ScanView {
                waiting: false,
                tokens: Tokens { pending: value@, ..old(self)@.tokens },
                ..old(self)@
            }),
    {
        proof {
            use_type_invariant(&*self);
        }
        if !self.waiting {
            return ;
        }
        let mut st = Scanner::empty();
        std::mem::swap(&mut st, self);
        let Scanner { text, pos, depth, pending: _, literals, operators, waiting: _ } = st;
        *self = Scanner { text, pos, depth, pending: value, literals, operators, waiting: false };
    }

    /// Whether the whole text has been read and no group waits for its value.
    pub fn at_end(&self) -> (r: bool)
        ensures
            r == (self@.pos == self@.text.len() && !self@.waiting),
    {
        self.pos == self.text.len() && !self.waiting
    }

    /// The operands read, as text, and how they combine.
    pub fn finish(self) -> (r: Result<Reduction, ParseError>)
        requires
            self@.pos == self@.text.len(),
            !self@.waiting,
        ensures
            r matches Ok(red) ==> outcome(self@.tokens) == Ok::<(Seq<Seq<char>>, Option<Expr>), ParseError>((red.literals.deep_view(), red.tree)),
            r matches Err(e) ==> outcome(self@.tokens) == Err::<(Seq<Seq<char>>, Option<Expr>), ParseError>(e),
    {
        proof {
            use_type_invariant(&self);
        }
        let ghost t = self@.tokens;
        let Scanner { text: _, pos: _, depth: _, pending, literals, operators, waiting: _ } = self;
        let mut literals = literals;
        if pending.len() > 0 {
            let ghost prev = literals.deep_view();
            assert(pending.deep_view() =~= pending@);
            literals.push(pending);
            assert(literals.deep_view() =~= prev.push(t.pending));
        }
        let n = literals.len();
        if n == 0 {
            return Ok(Reduction { literals, tree: None });
        }
        if n == operators.len() {
            if operators[n - 1] == '^' {
                return Err(ParseError::InvalidExponent);
            }
            return Err(ParseError::MalformedNumber);
        }
        let mut leaves: Vec<Expr> = Vec::new();
        let mut k: usize = 0;
        while k < n
            invariant
                k <= n,
                leaves@ == operands(k as nat),
            decreases n - k,
        {
            leaves.push(Expr::Operand(k));
            k = k + 1;
            assert(leaves@ =~= operands(k as nat));
        }
        let tree = evaluate(leaves, operators);
        Ok(Reduction { literals, tree: Some(tree) })
    }
}

} // verus!
