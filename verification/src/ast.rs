//! The expression tree of the experimental higher-level surface
//! language. Only the data model is finished; the LIR pipeline is the
//! compiler's working path.

use vstd::prelude::*;

verus! {

#[derive(Debug)]
pub enum Expression {
    /// A numeric literal; doubles as a character or boolean literal.
    Number(u8),
    /// An array literal.
    Array(Vec<Expression>),
    /// A path denotes a variable.
    Path(String),
    /// A function call.
    Call { name: String, args: Vec<Expression> },
    /// A variable assignment.
    Assignment { name: String, value: Box<Expression> },
    /// A block of expressions.
    Closure { body: Vec<Expression> },
    /// A for loop over a range or a variable.
    For { name: String, range: AlcIterator, body: Box<Expression> },
    /// A conditional with an optional else branch.
    If {
        condition: Box<Expression>,
        then_branch: Box<Expression>,
        else_branch: Option<Box<Expression>>,
    },
    /// A function definition.
    Function { name: String, args: Vec<String>, body: Box<Expression> },
}

#[derive(Debug, PartialEq, Clone)]
pub enum UnaryOperator {
    /// Negate a number: subtract it from zero and keep the distance.
    Negate,
}

#[derive(Debug)]
pub enum AlcIterator {
    Range { start: Box<Expression>, end: Box<Expression> },
    Variable(Box<Expression>),
}

/// How many bytes an expression denotes: one for a number, the sum of
/// the elements for an array, none otherwise.
pub open spec fn size_spec(e: Expression) -> nat
    decreases e,
{
    match e {
        Expression::Number(_) => 1,
        Expression::Array(arr) => size_sum_spec(arr@),
        _ => 0,
    }
}

/// The summed sizes of a list of expressions.
pub open spec fn size_sum_spec(s: Seq<Expression>) -> nat
    decreases s,
{
    if s.len() == 0 {
        0
    } else {
        size_spec(s[0]) + size_sum_spec(s.drop_first())
    }
}

/// A prefix never sums to more than the whole list.
proof fn lemma_size_sum_prefix(s: Seq<Expression>, i: int)
    requires
        0 <= i <= s.len(),
    ensures
        size_sum_spec(s.skip(i)) <= size_sum_spec(s),
    decreases i,
{
    if i == 0 {
        assert(s.skip(0) =~= s);
    } else {
        lemma_size_sum_prefix(s, i - 1);
        assert(s.skip(i - 1).len() > 0);
        assert(s.skip(i - 1)[0] == s[i - 1]);
        assert(s.skip(i - 1).drop_first() =~= s.skip(i));
        assert(size_sum_spec(s.skip(i - 1)) == size_spec(s[i - 1]) + size_sum_spec(s.skip(i)));
    }
}

impl Expression {
    /// The literal byte, where the expression is one.
    pub fn as_number(&self) -> (r: Option<u8>)
        ensures
            match *self {
                Expression::Number(n) => r == Some(n),
                _ => r is None,
            },
    {
        match self {
            Expression::Number(n) => Some(*n),
            _ => None,
        }
    }

    /// How many bytes the expression denotes.
    pub fn size(&self) -> (r: usize)
        requires
            size_spec(*self) <= usize::MAX,
        ensures
            r == size_spec(*self),
        decreases *self,
    {
        match self {
            Expression::Number(_) => 1,
            Expression::Array(arr) => {
                let ghost whole = arr@;
                let n = arr.len();
                let mut sum: usize = 0;
                let mut i: usize = 0;
                proof {
                    assert(whole.skip(0) =~= whole);
                }
                while i < n
                    invariant
                        i <= n,
                        n == whole.len(),
                        arr@ == whole,
                        size_spec(*self) == size_sum_spec(whole),
                        self == Expression::Array(*arr),
                        size_sum_spec(whole) <= usize::MAX,
                        sum + size_sum_spec(whole.skip(i as int)) == size_sum_spec(whole),
                    decreases n - i,
                {
                    proof {
                        assert(whole.skip(i as int).len() > 0);
                        assert(whole.skip(i as int).drop_first() =~= whole.skip(i + 1));
                        assert(whole.skip(i as int)[0] == whole[i as int]);
                        lemma_size_sum_prefix(whole, i as int);
                    }
                    let piece = arr[i].size();
                    sum = sum + piece;
                    i = i + 1;
                }
                proof {
                    assert(whole.skip(n as int) =~= Seq::<Expression>::empty());
                }
                sum
            }
            _ => 0,
        }
    }
}

} // verus!
