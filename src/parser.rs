//! The operand stack, its primitives, and the parse driver.
use vstd::prelude::*;
use crate::ast::{Regexp, Node, Error, is_tree, models, lemma_models_index};
use crate::laws::lemma_parse_gives_tree;

verus! {

/// The index just above the topmost sentinel of `st`, or 0 when it has none:
/// the entries from there up are the pending operands.
pub open spec fn operand_start(st: Seq<Node>) -> nat
    decreases st.len(),
{
    if st.len() == 0 {
        0
    } else if st.last().is_marker() {
        st.len()
    } else {
        operand_start(st.drop_last())
    }
}

/// The operands of `st` from index `i` up.
pub open spec fn operands_from(st: Seq<Node>, i: int) -> Seq<Node> {
    st.subrange(i, st.len() as int)
}

/// A concatenation of `ops`: nothing for no operand, the operand itself for
/// one, a `Concat` node for more.
pub open spec fn concat_of(ops: Seq<Node>) -> Node {
    if ops.len() == 0 {
        Node::Empty
    } else if ops.len() == 1 {
        ops[0]
    } else {
        Node::Concat(ops)
    }
}

/// An alternation of `ops`, which are at least one: the operand itself for
/// one, an `Alternate` node for more.
pub open spec fn alternate_of(ops: Seq<Node>) -> Node
    recommends
        ops.len() >= 1,
{
    if ops.len() == 1 {
        ops[0]
    } else {
        Node::Alternate(ops)
    }
}

/// `st` with its pending operands replaced by their concatenation.
pub open spec fn concat_stack(st: Seq<Node>) -> Seq<Node> {
    let i = operand_start(st) as int;
    st.take(i).push(concat_of(operands_from(st, i)))
}

/// `st` with its pending operands replaced by their alternation.
pub open spec fn alternate_stack(st: Seq<Node>) -> Seq<Node> {
    let i = operand_start(st) as int;
    st.take(i).push(alternate_of(operands_from(st, i)))
}

/// The entry second from the top of `st` is the alternation bar.
pub open spec fn bar_below_top(st: Seq<Node>) -> bool {
    st.len() >= 2 && st[st.len() - 2] is VerticalBar
}

/// `st` with its two top entries exchanged.
pub open spec fn swap_top(st: Seq<Node>) -> Seq<Node>
    recommends
        st.len() >= 2,
{
    st.take(st.len() - 2).push(st.last()).push(st[st.len() - 2])
}

/// `st` with its innermost alternation closed: the pending operands are
/// concatenated, and where the bar lies just below that, the bar is floated
/// to the top, popped, and the branches under it are joined.
pub open spec fn close_stack(st: Seq<Node>) -> Seq<Node> {
    let t = concat_stack(st);
    if bar_below_top(t) {
        alternate_stack(swap_top(t).drop_last())
    } else {
        t
    }
}

/// The repetition that the operator `op` makes of `n`.
pub open spec fn repeat_of(op: char, n: Node) -> Node
    recommends
        op == '*' || op == '+' || op == '?',
{
    if op == '*' {
        Node::Star(Box::new(n))
    } else if op == '+' {
        Node::Plus(Box::new(n))
    } else {
        Node::Quest(Box::new(n))
    }
}

/// One character of the scan, from stack `st` with `ncap` groups opened:
/// the new stack and group count, or the error that stops the scan.
pub open spec fn step(st: Seq<Node>, ncap: nat, c: char) -> Result<(Seq<Node>, nat), Error> {
    if c == '(' {
        Ok((st.push(Node::LeftParen(ncap + 1)), ncap + 1))
    } else if c == '|' {
        let t = concat_stack(st);
        if bar_below_top(t) {
            Ok((swap_top(t), ncap))
        } else {
            Ok((t.push(Node::VerticalBar), ncap))
        }
    } else if c == ')' {
        let t = close_stack(st);
        if t.len() < 2 {
            Err(Error::MissingParen)
        } else {
            match t[t.len() - 2] {
                Node::LeftParen(k) => Ok(
                    (t.take(t.len() - 2).push(Node::Capture(k, Box::new(t.last()))), ncap),
                ),
                _ => Err(Error::MissingParen),
            }
        }
    } else if c == '*' || c == '+' || c == '?' {
        if st.len() == 0 || st.last().is_marker() {
            Err(Error::RepeatArgument)
        } else {
            Ok((st.drop_last().push(repeat_of(c, st.last())), ncap))
        }
    } else {
        Ok((st.push(Node::Literal(c)), ncap))
    }
}

/// The stack and group count after scanning all of `s` from an empty
/// stack, or the first error met.
pub open spec fn scan(s: Seq<char>) -> Result<(Seq<Node>, nat), Error>
    decreases s.len(),
{
    if s.len() == 0 {
        Ok((Seq::empty(), 0))
    } else {
        match scan(s.drop_last()) {
            Ok((st, n)) => step(st, n, s.last()),
            Err(e) => Err(e),
        }
    }
}

/// The end of the input: the outermost alternation is closed, and exactly
/// one entry must be left.
pub open spec fn finish(st: Seq<Node>) -> Result<Node, Error> {
    let t = close_stack(st);
    if t.len() == 1 {
        Ok(t[0])
    } else {
        Err(Error::MissingParen)
    }
}

/// What parsing the pattern `s` gives.
pub open spec fn parse_result(s: Seq<char>) -> Result<Node, Error> {
    match scan(s) {
        Ok((st, _)) => finish(st),
        Err(e) => Err(e),
    }
}

/// Where the pending operands begin: no sentinel lies at or above that
/// index, and the entry just below it, if any, is a sentinel.
pub proof fn lemma_operand_start(st: Seq<Node>)
    ensures
        operand_start(st) <= st.len(),
        forall|j: int| operand_start(st) <= j < st.len() ==> !(#[trigger] st[j]).is_marker(),
        operand_start(st) > 0 ==> st[operand_start(st) - 1].is_marker(),
    decreases st.len(),
{
    if st.len() > 0 && !st.last().is_marker() {
        lemma_operand_start(st.drop_last());
        assert forall|j: int| operand_start(st) <= j < st.len() implies !(#[trigger] st[j]).is_marker() by {
            if j < st.len() - 1 {
                assert(st.drop_last()[j] == st[j]);
            }
        }
    }
}

/// A stack whose top is an operand has at least that one pending operand.
pub proof fn lemma_operand_on_top(st: Seq<Node>)
    requires
        st.len() > 0,
        !st.last().is_marker(),
    ensures
        operand_start(st) < st.len(),
{
    lemma_operand_start(st);
}

/// A concatenation or an alternation of pending operands is no sentinel.
pub proof fn lemma_collapse_not_marker(st: Seq<Node>)
    ensures
        !concat_stack(st).last().is_marker(),
        operand_start(st) < st.len() ==> !alternate_stack(st).last().is_marker(),
{
    lemma_operand_start(st);
    let i = operand_start(st) as int;
    if i < st.len() {
        assert(operands_from(st, i)[0] == st[i]);
    }
}

/// Once the scan of a prefix has failed, the scan of the whole fails alike.
pub proof fn lemma_scan_error_sticks(s: Seq<char>, i: int)
    requires
        0 <= i <= s.len(),
        scan(s.take(i)) is Err,
    ensures
        scan(s) == scan(s.take(i)),
    decreases s.len(),
{
    if s.len() > i {
        assert(s.drop_last().take(i) =~= s.take(i));
        lemma_scan_error_sticks(s.drop_last(), i);
    } else {
        assert(s.take(i) =~= s);
    }
}

/// The group count never exceeds the number of characters scanned.
pub proof fn lemma_scan_groups(s: Seq<char>)
    ensures
        scan(s) matches Ok((_, n)) ==> n <= s.len(),
    decreases s.len(),
{
    if s.len() > 0 {
        lemma_scan_groups(s.drop_last());
    }
}

/// The working state of one parse: the operand stack and the number of
/// groups opened so far.
pub struct Parser {
    stack: Vec<Regexp>,
    ncap: usize,
}

impl View for Parser {
    type V = Seq<Node>;

    closed spec fn view(&self) -> Seq<Node> {
        self.stack@.map_values(|e: Regexp| e@)
    }
}

impl Parser {
    /// The number of groups opened so far.
    pub closed spec fn groups(&self) -> nat {
        self.ncap as nat
    }

    /// A parser with an empty stack and no group opened.
    pub fn new() -> (p: Parser)
        ensures
            p@ == Seq::<Node>::empty(),
            p.groups() == 0,
    {
        let p = Parser { stack: Vec::new(), ncap: 0 };
        assert(p@ =~= Seq::<Node>::empty());
        p
    }

    /// Pushes an entry on top of the stack.
    pub fn push(&mut self, e: Regexp)
        ensures
            final(self)@ == old(self)@.push(e@),
            final(self).groups() == old(self).groups(),
    {
        self.stack.push(e);
        assert(self@ =~= old(self)@.push(e@));
    }

    /// Removes and returns the top entry.
    fn pop(&mut self) -> (e: Regexp)
        requires
            old(self)@.len() > 0,
        ensures
            final(self)@ == old(self)@.drop_last(),
            e@ == old(self)@.last(),
            final(self).groups() == old(self).groups(),
    {
        let e = self.stack.pop().unwrap();
        assert(self@ =~= old(self)@.drop_last());
        e
    }

    /// The number of entries on the stack.
    pub fn len(&self) -> (n: usize)
        ensures
            n == self@.len(),
    {
        self.stack.len()
    }

    /// Finds where the pending operands begin, scanning down from the top.
    fn find_operand_start(&self) -> (i: usize)
        ensures
            i == operand_start(self@),
    {
        let ghost st = self@;
        let mut i: usize = self.stack.len();
        assert(st.take(i as int) =~= st);
        while i > 0 && !self.stack[i - 1].is_marker()
            invariant
                i <= st.len(),
                st == self@,
                operand_start(st) == operand_start(st.take(i as int)),
            decreases i,
        {
            assert(st.take(i as int).drop_last() =~= st.take(i - 1));
            i = i - 1;
        }
        i
    }

    /// Takes the operands from index `i` up off the stack, in order.
    fn split_operands(&mut self, i: usize) -> (subs: Vec<Regexp>)
        requires
            i == operand_start(old(self)@),
        ensures
            final(self)@ == old(self)@.take(i as int),
            models(subs@) == operands_from(old(self)@, i as int),
            final(self).groups() == old(self).groups(),
    {
        let ghost st = self@;
        proof {
            lemma_operand_start(st);
        }
        let mut rev: Vec<Regexp> = Vec::new();
        while self.stack.len() > i
            invariant
                i <= self@.len() <= st.len(),
                self@ == st.take(self@.len() as int),
                self.groups() == old(self).groups(),
                rev.len() == st.len() - self@.len(),
                forall|j: int| 0 <= j < rev.len() ==> #[trigger] rev@[j]@ == st[st.len() - 1 - j],
                forall|j: int| i <= j < st.len() ==> !(#[trigger] st[j]).is_marker(),
            decreases self@.len(),
        {
            let ghost before = self@;
            let e = self.pop();
            assert(self@ =~= st.take(self@.len() as int));
            assert(before[before.len() - 1] == st[before.len() - 1]);
            rev.push(e);
        }
        let mut subs: Vec<Regexp> = Vec::new();
        let ghost k = rev.len();
        while rev.len() > 0
            invariant
                k == st.len() - i,
                subs.len() + rev.len() == k,
                forall|j: int| 0 <= j < rev.len() ==> #[trigger] rev@[j]@ == st[st.len() - 1 - j],
                forall|j: int| 0 <= j < subs.len() ==> #[trigger] subs@[j]@ == st[i + j],
            decreases rev.len(),
        {
            let r = rev.pop().unwrap();
            subs.push(r);
        }
        proof {
            lemma_models_index(subs@);
            assert forall|j: int| 0 <= j < subs.len() implies models(subs@)[j] == operands_from(
                st,
                i as int,
            )[j] by {
                assert(subs@[j]@ == st[i + j]);
            }
            assert(models(subs@) =~= operands_from(st, i as int));
        }
        subs
    }

    /// Replaces the pending operands by their concatenation.
    pub fn concat(&mut self)
        ensures
            final(self)@ == concat_stack(old(self)@),
            final(self).groups() == old(self).groups(),
    {
        let ghost st = self@;
        proof {
            lemma_operand_start(st);
        }
        let i: usize = self.find_operand_start();
        let n: usize = self.stack.len();
        if i == n {
            self.push((Regexp::Empty));
            assert(st.take(i as int) =~= st);
            assert(operands_from(st, i as int) =~= Seq::<Node>::empty());
        } else if n - i >= 2 {
            let subs = self.split_operands(i);
            self.push((Regexp::Concat(subs)));
        } else {
            assert(st =~= concat_stack(st));
        }
    }

    /// Replaces the pending operands, of which there is at least one, by
    /// their alternation.
    pub fn alternate(&mut self)
        requires
            operand_start(old(self)@) < old(self)@.len(),
        ensures
            final(self)@ == alternate_stack(old(self)@),
            final(self).groups() == old(self).groups(),
    {
        let ghost st = self@;
        proof {
            lemma_operand_start(st);
        }
        let i: usize = self.find_operand_start();
        let n: usize = self.stack.len();
        if n - i >= 2 {
            let subs = self.split_operands(i);
            self.push((Regexp::Alternate(subs)));
        } else {
            assert(st =~= alternate_stack(st));
        }
    }

    /// Moves an alternation bar that lies just below the top entry up to
    /// the top, and says whether it did.
    pub fn swap_vertical_bar(&mut self) -> (r: bool)
        ensures
            r == bar_below_top(old(self)@),
            final(self)@ == if r { swap_top(old(self)@) } else { old(self)@ },
            final(self).groups() == old(self).groups(),
    {
        let n: usize = self.stack.len();
        if n >= 2 && self.stack[n - 2].is_vertical_bar() {
            let top = self.pop();
            let bar = self.pop();
            self.push(top);
            self.push(bar);
            assert(self@ =~= swap_top(old(self)@));
            true
        } else {
            false
        }
    }

    /// Closes the innermost alternation (see [`close_stack`]).
    fn close(&mut self)
        ensures
            final(self)@ == close_stack(old(self)@),
            final(self).groups() == old(self).groups(),
    {
        proof {
            lemma_collapse_not_marker(self@);
        }
        self.concat();
        if self.swap_vertical_bar() {
            let _ = self.pop();
            proof {
                lemma_operand_on_top(self@);
            }
            self.alternate();
        }
    }

    /// Handles one character of the pattern (see [`step`]).
    pub fn step_char(&mut self, c: char) -> (r: Result<(), Error>)
        requires
            old(self).groups() < usize::MAX,
        ensures
            match r {
                Ok(()) => step(old(self)@, old(self).groups(), c) == Ok::<(Seq<Node>, nat), Error>(
                    (final(self)@, final(self).groups()),
                ),
                Err(e) => step(old(self)@, old(self).groups(), c) == Err::<(Seq<Node>, nat), Error>(
                    e,
                ),
            },
    {
        let ghost st = self@;
        if c == '(' {
            self.ncap = self.ncap + 1;
            let k: usize = self.ncap;
            self.push(Regexp::LeftParen(k));
        } else if c == '|' {
            self.concat();
            if !self.swap_vertical_bar() {
                self.push(Regexp::VerticalBar);
            }
        } else if c == ')' {
            self.close();
            let ghost t = self@;
            if self.len() < 2 {
                return Err(Error::MissingParen);
            }
            let sub = self.pop();
            let paren = self.pop();
            match paren {
                Regexp::LeftParen(k) => {
                    self.push(Regexp::Capture(k, Box::new(sub)));
                    assert(t.drop_last().drop_last() =~= t.take(t.len() - 2));
                },
                _ => {
                    return Err(Error::MissingParen);
                },
            }
        } else if c == '*' || c == '+' || c == '?' {
            if self.len() < 1 {
                return Err(Error::RepeatArgument);
            }
            let sub = self.pop();
            if sub.is_marker() {
                return Err(Error::RepeatArgument);
            }
            let re = if c == '*' {
                Regexp::Star(Box::new(sub))
            } else if c == '+' {
                Regexp::Plus(Box::new(sub))
            } else {
                Regexp::Quest(Box::new(sub))
            };
            self.push(re);
        } else {
            self.push(Regexp::Literal(c));
        }
        Ok(())
    }
}

/// The characters of `s`, in order.
fn chars_of(s: &str) -> (v: Vec<char>)
    ensures
        v@ == s@,
{
    let mut v: Vec<char> = Vec::new();
    for ch in it: s.chars()
        invariant
            it.seq() == s@,
            v@ == it.seq().take(it.index()),
    {
        v.push(ch);
    }
    v
}

/// The model of a parse outcome.
pub open spec fn outcome(r: Result<Regexp, Error>) -> Result<Node, Error> {
    match r {
        Ok(re) => Ok(re@),
        Err(e) => Err(e),
    }
}

/// Parses the pattern `s`, one character at a time, into an expression
/// tree, or fails with the first error met.
pub fn parse(s: &str) -> (r: Result<Regexp, Error>)
    ensures
        outcome(r) == parse_result(s@),
        r matches Ok(re) ==> is_tree(re@),
{
    proof {
        lemma_parse_gives_tree(s@);
    }
    let chars = chars_of(s);
    let len: usize = chars.len();
    let mut p = Parser::new();
    let mut i: usize = 0;
    assert(s@.take(0) =~= Seq::<char>::empty());
    while i < len
        invariant
            chars@ == s@,
            len == s@.len(),
            i <= len,
            scan(s@.take(i as int)) == Ok::<(Seq<Node>, nat), Error>((p@, p.groups())),
        decreases len - i,
    {
        let c = chars[i];
        let ghost pre = s@.take(i as int);
        let ghost next = s@.take(i + 1);
        proof {
            assert(next.drop_last() =~= pre);
            assert(next.last() == c);
            lemma_scan_groups(pre);
        }
        match p.step_char(c) {
            Ok(()) => {},
            Err(e) => {
                proof {
                    lemma_scan_error_sticks(s@, i + 1);
                }
                return Err(e);
            },
        }
        i = i + 1;
    }
    assert(s@.take(len as int) =~= s@);
    p.close();
    if p.len() != 1 {
        return Err(Error::MissingParen);
    }
    let re = p.pop();
    Ok(re)
}

} // verus!
