use vstd::prelude::*;
use crate::text::{is_single_char, push_str, string_from};

verus! {

/// The text `0`.
pub open spec fn zero_text() -> Seq<char> {
    seq!['0']
}

/// The text `1`.
pub open spec fn one_text() -> Seq<char> {
    seq!['1']
}

/// Text of a sum: `0` is dropped, otherwise `(a + b)`.
pub open spec fn add_text(a: Seq<char>, b: Seq<char>) -> Seq<char> {
    if a == zero_text() {
        b
    } else if b == zero_text() {
        a
    } else {
        seq!['('] + a + seq![' ', '+', ' '] + b + seq![')']
    }
}

/// Text of a difference: `a - 0` is `a`, `0 - b` is `-b`, otherwise `(a - b)`.
pub open spec fn sub_text(a: Seq<char>, b: Seq<char>) -> Seq<char> {
    if b == zero_text() {
        a
    } else if a == zero_text() {
        seq!['-'] + b
    } else {
        seq!['('] + a + seq![' ', '-', ' '] + b + seq![')']
    }
}

/// Text of a negation: `0` stays `0`, otherwise `-a`.
pub open spec fn neg_text(a: Seq<char>) -> Seq<char> {
    if a == zero_text() {
        zero_text()
    } else {
        seq!['-'] + a
    }
}

/// Text of a product: a `0` factor gives `0`, a `1` factor is dropped,
/// otherwise `a*b`.
pub open spec fn mul_text(a: Seq<char>, b: Seq<char>) -> Seq<char> {
    if a == zero_text() || b == zero_text() {
        zero_text()
    } else if a == one_text() {
        b
    } else if b == one_text() {
        a
    } else {
        a + seq!['*'] + b
    }
}

/// Text of a reciprocal: `1` stays `1`, otherwise `1/a`.
pub open spec fn recip_text(a: Seq<char>) -> Seq<char> {
    if a == one_text() {
        one_text()
    } else {
        seq!['1', '/'] + a
    }
}

/// A symbolic expression, kept as its text.
#[derive(Debug, Clone, PartialEq, Eq)]
pub struct Expr(String);

impl View for Expr {
    type V = Seq<char>;

    closed spec fn view(&self) -> Seq<char> {
        self.0@
    }
}

impl DeepView for Expr {
    type V = Seq<char>;

    open spec fn deep_view(&self) -> Seq<char> {
        self@
    }
}

impl Expr {
    /// The expression `0`.
    pub fn zero() -> (r: Self)
        ensures
            r@ == zero_text(),
    {
        let mut s = String::new();
        s.push('0');
        Expr(s)
    }

    /// The expression `1`.
    pub fn one() -> (r: Self)
        ensures
            r@ == one_text(),
    {
        let mut s = String::new();
        s.push('1');
        Expr(s)
    }

    /// The symbol with the given name.
    pub fn symbol(name: &str) -> (r: Self)
        ensures
            r@ == name@,
    {
        Expr(string_from(name))
    }

    /// The symbol whose name is the given string.
    pub fn from_text(name: String) -> (r: Self)
        ensures
            r@ == name@,
    {
        Expr(name)
    }

    /// The text of this expression.
    pub fn as_str(&self) -> (r: &str)
        ensures
            r@ == self@,
    {
        self.0.as_str()
    }

    /// The text of this expression, as an owned string.
    pub fn to_string(&self) -> (r: String)
        ensures
            r@ == self@,
    {
        self.0.clone()
    }

    /// A copy of this expression.
    pub fn duplicate(&self) -> (r: Self)
        ensures
            r@ == self@,
    {
        Expr(self.0.clone())
    }

    fn is_zero(&self) -> (r: bool)
        ensures
            r == (self@ == zero_text()),
    {
        is_single_char(self.0.as_str(), '0')
    }

    fn is_one(&self) -> (r: bool)
        ensures
            r == (self@ == one_text()),
    {
        is_single_char(self.0.as_str(), '1')
    }

    pub fn add(&self, rhs: &Self) -> (r: Self)
        ensures
            r@ == add_text(self@, rhs@),
    {
        if self.is_zero() {
            rhs.duplicate()
        } else if rhs.is_zero() {
            self.duplicate()
        } else {
            let mut s = String::new();
            s.push('(');
            push_str(&mut s, self.0.as_str());
            s.push(' ');
            s.push('+');
            s.push(' ');
            push_str(&mut s, rhs.0.as_str());
            s.push(')');
            let r = Expr(s);
            assert(r@ =~= add_text(self@, rhs@));
            r
        }
    }

    pub fn sub(&self, rhs: &Self) -> (r: Self)
        ensures
            r@ == sub_text(self@, rhs@),
    {
        if rhs.is_zero() {
            self.duplicate()
        } else if self.is_zero() {
            let mut s = String::new();
            s.push('-');
            push_str(&mut s, rhs.0.as_str());
            let r = Expr(s);
            assert(r@ =~= sub_text(self@, rhs@));
            r
        } else {
            let mut s = String::new();
            s.push('(');
            push_str(&mut s, self.0.as_str());
            s.push(' ');
            s.push('-');
            s.push(' ');
            push_str(&mut s, rhs.0.as_str());
            s.push(')');
            let r = Expr(s);
            assert(r@ =~= sub_text(self@, rhs@));
            r
        }
    }

    pub fn neg(&self) -> (r: Self)
        ensures
            r@ == neg_text(self@),
    {
        if self.is_zero() {
            Self::zero()
        } else {
            let mut s = String::new();
            s.push('-');
            push_str(&mut s, self.0.as_str());
            let r = Expr(s);
            assert(r@ =~= neg_text(self@));
            r
        }
    }

    pub fn mul(&self, rhs: &Self) -> (r: Self)
        ensures
            r@ == mul_text(self@, rhs@),
    {
        if self.is_zero() || rhs.is_zero() {
            Self::zero()
        } else if self.is_one() {
            rhs.duplicate()
        } else if rhs.is_one() {
            self.duplicate()
        } else {
            let mut s = self.0.clone();
            s.push('*');
            push_str(&mut s, rhs.0.as_str());
            let r = Expr(s);
            assert(r@ =~= mul_text(self@, rhs@));
            r
        }
    }

    pub fn reciprocal(&self) -> (r: Self)
        ensures
            r@ == recip_text(self@),
    {
        if self.is_one() {
            Self::one()
        } else {
            let mut s = String::new();
            s.push('1');
            s.push('/');
            push_str(&mut s, self.0.as_str());
            let r = Expr(s);
            assert(r@ =~= recip_text(self@));
            r
        }
    }
}

/// `0` is an identity of `add` on both sides.
pub proof fn law_add_zero_identity(x: Seq<char>)
    ensures
        add_text(zero_text(), x) == x,
        add_text(x, zero_text()) == x,
{
}

/// Subtracting `0` changes nothing, and `0 - x` is the negation of `x`.
pub proof fn law_sub_zero(x: Seq<char>)
    ensures
        sub_text(x, zero_text()) == x,
        sub_text(zero_text(), x) == neg_text(x),
{
}

/// `0` absorbs `mul` and `1` is its identity, on both sides.
pub proof fn law_mul_zero_one(x: Seq<char>)
    ensures
        mul_text(zero_text(), x) == zero_text(),
        mul_text(x, zero_text()) == zero_text(),
        mul_text(one_text(), x) == x,
        mul_text(x, one_text()) == x,
{
    assert(zero_text()[0] != one_text()[0]);
}

/// The negation of `0` is `0`, and the reciprocal of `1` is `1`.
pub proof fn law_neg_zero_recip_one()
    ensures
        neg_text(zero_text()) == zero_text(),
        recip_text(one_text()) == one_text(),
{
}

} // verus!
