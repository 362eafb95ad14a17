//! The syntax tree, its mathematical model, and the parse errors.
use vstd::prelude::*;

verus! {

/// An expression, or one of the two sentinels that the parser keeps on its
/// stack. Every child is owned by exactly one parent. A tree that `parse`
/// returns holds no sentinel (see [`is_tree`]).
#[derive(Debug, PartialEq, Eq)]
pub enum Regexp {
    Empty,
    Literal(char),
    Concat(Vec<Regexp>),
    Alternate(Vec<Regexp>),
    Star(Box<Regexp>),
    Plus(Box<Regexp>),
    Quest(Box<Regexp>),
    Capture(usize, Box<Regexp>),
    /// Sentinel: an open group, with the capture index it will get.
    LeftParen(usize),
    /// Sentinel: the pending alternation bar of the innermost open group.
    VerticalBar,
}

/// The mathematical model of a [`Regexp`]: the same tree, with sequences for
/// child lists and unbounded capture indices.
pub enum Node {
    Empty,
    Literal(char),
    Concat(Seq<Node>),
    Alternate(Seq<Node>),
    Star(Box<Node>),
    Plus(Box<Node>),
    Quest(Box<Node>),
    Capture(nat, Box<Node>),
    LeftParen(nat),
    VerticalBar,
}

impl Node {
    /// A sentinel, as opposed to an expression.
    pub open spec fn is_marker(self) -> bool {
        self is LeftParen || self is VerticalBar
    }
}

/// A finished expression tree: no sentinel anywhere in it, and every
/// `Concat` and `Alternate` holds at least two children.
pub open spec fn is_tree(n: Node) -> bool
    decreases n,
{
    match n {
        Node::Empty => true,
        Node::Literal(_) => true,
        Node::Concat(s) => s.len() >= 2 && all_trees(s),
        Node::Alternate(s) => s.len() >= 2 && all_trees(s),
        Node::Star(b) => is_tree(*b),
        Node::Plus(b) => is_tree(*b),
        Node::Quest(b) => is_tree(*b),
        Node::Capture(_, b) => is_tree(*b),
        Node::LeftParen(_) => false,
        Node::VerticalBar => false,
    }
}

/// Every member of `s` is a finished expression tree.
pub open spec fn all_trees(s: Seq<Node>) -> bool
    decreases s,
{
    if s.len() == 0 {
        true
    } else {
        all_trees(s.drop_last()) && is_tree(s.last())
    }
}

/// The model of a tree.
pub open spec fn model(r: Regexp) -> Node
    decreases r,
{
    match r {
        Regexp::Empty => Node::Empty,
        Regexp::Literal(c) => Node::Literal(c),
        Regexp::Concat(v) => Node::Concat(models(v@)),
        Regexp::Alternate(v) => Node::Alternate(models(v@)),
        Regexp::Star(b) => Node::Star(Box::new(model(*b))),
        Regexp::Plus(b) => Node::Plus(Box::new(model(*b))),
        Regexp::Quest(b) => Node::Quest(Box::new(model(*b))),
        Regexp::Capture(i, b) => Node::Capture(i as nat, Box::new(model(*b))),
        Regexp::LeftParen(i) => Node::LeftParen(i as nat),
        Regexp::VerticalBar => Node::VerticalBar,
    }
}

/// The models of a list of trees, in order.
pub open spec fn models(s: Seq<Regexp>) -> Seq<Node>
    decreases s,
{
    if s.len() == 0 {
        Seq::empty()
    } else {
        models(s.drop_last()).push(model(s.last()))
    }
}

/// `models` keeps the length and maps each tree to its model.
pub proof fn lemma_models_index(s: Seq<Regexp>)
    ensures
        models(s).len() == s.len(),
        forall|j: int| 0 <= j < s.len() ==> #[trigger] models(s)[j] == model(s[j]),
    decreases s.len(),
{
    if s.len() > 0 {
        lemma_models_index(s.drop_last());
    }
}

/// `all_trees` holds exactly when each member is a tree.
pub proof fn lemma_all_trees(s: Seq<Node>)
    ensures
        all_trees(s) <==> forall|j: int| 0 <= j < s.len() ==> is_tree(#[trigger] s[j]),
    decreases s.len(),
{
    if s.len() > 0 {
        lemma_all_trees(s.drop_last());
        if forall|j: int| 0 <= j < s.len() ==> is_tree(#[trigger] s[j]) {
            assert forall|j: int| 0 <= j < s.drop_last().len() implies is_tree(
                #[trigger] s.drop_last()[j],
            ) by {
                assert(s.drop_last()[j] == s[j]);
            }
        }
        if all_trees(s) {
            assert forall|j: int| 0 <= j < s.len() implies is_tree(#[trigger] s[j]) by {
                if j < s.len() - 1 {
                    assert(s.drop_last()[j] == s[j]);
                }
            }
        }
    }
}

impl View for Regexp {
    type V = Node;

    open spec fn view(&self) -> Node {
        model(*self)
    }
}

/// The two ways a pattern can be malformed.
#[derive(Debug, Clone, Copy, PartialEq, Eq, Structural)]
pub enum Error {
    /// A `)` without a matching `(`, or a `(` never closed.
    MissingParen,
    /// A `*`, `+` or `?` with nothing before it to repeat.
    RepeatArgument,
}

/// The short name of an expression's kind, as the text dump writes it;
/// empty for a sentinel.
pub open spec fn name_of(n: Node) -> Seq<char> {
    match n {
        Node::Empty => "emp"@,
        Node::Literal(_) => "lit"@,
        Node::Concat(_) => "cat"@,
        Node::Alternate(_) => "alt"@,
        Node::Star(_) => "star"@,
        Node::Plus(_) => "plus"@,
        Node::Quest(_) => "que"@,
        Node::Capture(_, _) => "cap"@,
        _ => Seq::empty(),
    }
}

/// The text dump of a tree: `name{...}`, where the braces hold the literal
/// character, or the dumps of the children in order.
pub open spec fn dump_of(n: Node) -> Seq<char>
    decreases n,
{
    let inner = match n {
        Node::Empty => Seq::empty(),
        Node::Literal(c) => seq![c],
        Node::Concat(s) => dumps_of(s),
        Node::Alternate(s) => dumps_of(s),
        Node::Star(b) => dump_of(*b),
        Node::Plus(b) => dump_of(*b),
        Node::Quest(b) => dump_of(*b),
        Node::Capture(_, b) => dump_of(*b),
        _ => Seq::empty(),
    };
    name_of(n) + seq!['{'] + inner + seq!['}']
}

/// The dumps of a list of trees, one after the other.
pub open spec fn dumps_of(s: Seq<Node>) -> Seq<char>
    decreases s,
{
    if s.len() == 0 {
        Seq::empty()
    } else {
        dumps_of(s.drop_last()) + dump_of(s.last())
    }
}

/// Relies on `String::push`: appends one character at the end.
#[verifier::external_body]
fn push_char(out: &mut String, c: char)
    ensures
        final(out)@ == old(out)@.push(c),
{
    out.push(c);
}

impl Regexp {
    /// Whether this is a sentinel rather than an expression.
    pub fn is_marker(&self) -> (r: bool)
        ensures
            r == self@.is_marker(),
    {
        match self {
            Regexp::LeftParen(_) | Regexp::VerticalBar => true,
            _ => false,
        }
    }

    /// Whether this is the open-group sentinel.
    pub fn is_left_paren(&self) -> (r: bool)
        ensures
            r == (self@ is LeftParen),
    {
        match self {
            Regexp::LeftParen(_) => true,
            _ => false,
        }
    }

    /// Whether this is the alternation-bar sentinel.
    pub fn is_vertical_bar(&self) -> (r: bool)
        ensures
            r == (self@ is VerticalBar),
    {
        match self {
            Regexp::VerticalBar => true,
            _ => false,
        }
    }

    /// The short name of this expression's kind.
    /// A sentinel has no name: the result is then empty.
    pub fn name(&self) -> (r: String)
        ensures
            r@ == name_of(self@),
    {
        match self {
            Regexp::Empty => String::from_str("emp"),
            Regexp::Literal(_) => String::from_str("lit"),
            Regexp::Concat(_) => String::from_str("cat"),
            Regexp::Alternate(_) => String::from_str("alt"),
            Regexp::Star(_) => String::from_str("star"),
            Regexp::Plus(_) => String::from_str("plus"),
            Regexp::Quest(_) => String::from_str("que"),
            Regexp::Capture(_, _) => String::from_str("cap"),
            Regexp::LeftParen(_) | Regexp::VerticalBar => String::new(),
        }
    }

    /// Appends the dump of this tree to `out`.
    pub fn dump_into(&self, out: &mut String)
        ensures
            final(out)@ == old(out)@ + dump_of(self@),
        decreases self,
    {
        let name = self.name();
        out.append(name.as_str());
        push_char(out, '{');
        match self {
            Regexp::Empty | Regexp::LeftParen(_) | Regexp::VerticalBar => {},
            Regexp::Literal(c) => {
                push_char(out, *c);
            },
            Regexp::Concat(v) | Regexp::Alternate(v) => {
                Self::dump_all_into(v, out);
            },
            Regexp::Star(b) | Regexp::Plus(b) | Regexp::Quest(b) | Regexp::Capture(_, b) => {
                b.dump_into(out);
            },
        }
        push_char(out, '}');
        assert(final(out)@ =~= old(out)@ + dump_of(self@));
    }

    fn dump_all_into(v: &Vec<Regexp>, out: &mut String)
        ensures
            final(out)@ == old(out)@ + dumps_of(models(v@)),
        decreases v,
    {
        let ghost start = out@;
        let mut i: usize = 0;
        while i < v.len()
            invariant
                i <= v.len(),
                out@ == start + dumps_of(models(v@.take(i as int))),
            decreases v.len() - i,
        {
            v[i].dump_into(out);
            proof {
                let t = v@.take(i + 1);
                assert(t.drop_last() =~= v@.take(i as int));
                assert(models(t) == models(v@.take(i as int)).push(v@[i as int]@));
                assert(models(t).drop_last() =~= models(v@.take(i as int)));
                assert(out@ =~= start + dumps_of(models(t)));
            }
            i = i + 1;
        }
        assert(v@.take(v.len() as int) =~= v@);
    }

    /// The dump of this tree as a string, such as `cat{lit{a}lit{b}}`.
    pub fn dump(&self) -> (r: String)
        ensures
            r@ == dump_of(self@),
    {
        let mut out = String::new();
        self.dump_into(&mut out);
        out
    }
}

} // verus!
