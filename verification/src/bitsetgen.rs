//! Code generation for bit set types: picks an unsigned integer type wide
//! enough for a requested number of elements and renders the expressions a
//! generated component uses to manipulate such a set.

use vstd::prelude::*;

verus! {

/// The requested bit set does not fit any supported integer type.
#[derive(Debug, Clone, Copy)]
pub struct TooLargeError;

/// A code generator for a bit set type capable of storing a fixed number of
/// elements: either the unit type for zero elements, or an unsigned integer
/// type named by `ty`.
#[derive(Debug, Clone, Copy)]
pub enum BitsetTy {
    Empty,
    Ux { ty: &'static str },
}

/// The decimal digit `d` as a character; meaningful for `d < 10`.
pub open spec fn digit_char(d: nat) -> char {
    if d == 0 {
        '0'
    } else if d == 1 {
        '1'
    } else if d == 2 {
        '2'
    } else if d == 3 {
        '3'
    } else if d == 4 {
        '4'
    } else if d == 5 {
        '5'
    } else if d == 6 {
        '6'
    } else if d == 7 {
        '7'
    } else if d == 8 {
        '8'
    } else {
        '9'
    }
}

/// The decimal representation of `n`, most significant digit first.
pub open spec fn dec_rep(n: nat) -> Seq<char>
    decreases n,
{
    if n < 10 {
        seq![digit_char(n)]
    } else {
        dec_rep(n / 10).push(digit_char(n % 10))
    }
}

/// The single decimal digit `d` as a string slice.
fn digit_str(d: usize) -> (r: &'static str)
    requires
        d < 10,
    ensures
        r@ == seq![digit_char(d as nat)],
{
    let r: &'static str = match d {
        0 => "0",
        1 => "1",
        2 => "2",
        3 => "3",
        4 => "4",
        5 => "5",
        6 => "6",
        7 => "7",
        8 => "8",
        _ => "9",
    };
    proof {
        reveal_strlit("0");
        reveal_strlit("1");
        reveal_strlit("2");
        reveal_strlit("3");
        reveal_strlit("4");
        reveal_strlit("5");
        reveal_strlit("6");
        reveal_strlit("7");
        reveal_strlit("8");
        reveal_strlit("9");
        assert(r@ =~= seq![digit_char(d as nat)]);
    }
    r
}

/// Render `n` in decimal.
pub fn usize_to_dec_string(n: usize) -> (r: String)
    ensures
        r@ == dec_rep(n as nat),
    decreases n,
{
    if n < 10 {
        String::from_str(digit_str(n))
    } else {
        let mut s = usize_to_dec_string(n / 10);
        s.append(digit_str(n % 10));
        proof {
            assert(s@ =~= dec_rep(n as nat));
        }
        s
    }
}

impl BitsetTy {
    /// The name of the generated type.
    pub open spec fn spec_ty(self) -> Seq<char> {
        match self {
            BitsetTy::Empty => "()"@,
            BitsetTy::Ux { ty } => ty@,
        }
    }

    /// What `gen_empty` renders: the unit value, or zero of the integer type.
    pub open spec fn spec_empty(self) -> Seq<char> {
        match self {
            BitsetTy::Empty => "()"@,
            BitsetTy::Ux { ty } => "0"@ + ty@,
        }
    }

    /// What `gen_one` renders for element `i`: the integer with only bit `i`
    /// set. Meaningful only for the integer-backed variant.
    pub open spec fn spec_one(self, i: nat) -> Seq<char> {
        match self {
            BitsetTy::Empty => Seq::empty(),
            BitsetTy::Ux { ty } => if i == 0 {
                "1"@ + ty@
            } else {
                "1"@ + ty@ + " << "@ + dec_rep(i)
            },
        }
    }

    /// The ` | (..)` continuation of a multi-element set expression.
    pub open spec fn spec_multi_tail(self, elements: Seq<usize>) -> Seq<char>
        decreases elements.len(),
    {
        if elements.len() == 0 {
            Seq::empty()
        } else {
            " | ("@ + self.spec_one(elements[0] as nat) + ")"@ + self.spec_multi_tail(
                elements.drop_first(),
            )
        }
    }

    /// What `gen_multi` renders for `elements`: the empty set, a single bit,
    /// or a `|` chain of parenthesized bits.
    pub open spec fn spec_multi(self, elements: Seq<usize>) -> Seq<char> {
        if elements.len() == 0 {
            self.spec_empty()
        } else if elements.len() == 1 {
            self.spec_one(elements[0] as nat)
        } else {
            "("@ + self.spec_one(elements[0] as nat) + ")"@ + self.spec_multi_tail(
                elements.drop_first(),
            )
        }
    }

    /// Construct a code generator for a bitset type capable of storing
    /// `size` elements.
    ///
    /// Zero elements take the unit type; up to 8, 32, 64 and 128 elements
    /// take the correspondingly wide unsigned integer type; more are refused.
    pub fn new(size: usize) -> (r: Result<Self, TooLargeError>)
        ensures
            size == 0 ==> (r matches Ok(t) && t is Empty),
            1 <= size <= 8 ==> (r matches Ok(t) && t is Ux && t.spec_ty() == "u8"@),
            9 <= size <= 32 ==> (r matches Ok(t) && t is Ux && t.spec_ty() == "u32"@),
            33 <= size <= 64 ==> (r matches Ok(t) && t is Ux && t.spec_ty() == "u64"@),
            65 <= size <= 128 ==> (r matches Ok(t) && t is Ux && t.spec_ty() == "u128"@),
            size > 128 ==> r is Err,
    {
        if size == 0 {
            Ok(Self::Empty)
        } else if size <= 8 {
            Ok(Self::Ux { ty: "u8" })
        } else if size <= 32 {
            Ok(Self::Ux { ty: "u32" })
        } else if size <= 64 {
            Ok(Self::Ux { ty: "u64" })
        } else if size <= 128 {
            Ok(Self::Ux { ty: "u128" })
        } else {
            Err(TooLargeError)
        }
    }

    /// Get the name of the generated type.
    pub fn gen_ty(&self) -> (r: &'static str)
        ensures
            r@ == self.spec_ty(),
    {
        match self {
            Self::Empty => "()",
            Self::Ux { ty } => *ty,
        }
    }

    /// Generate an expression representing an empty set.
    pub fn gen_empty(&self) -> (r: String)
        ensures
            r@ == self.spec_empty(),
    {
        match self {
            Self::Empty => String::from_str("()"),
            Self::Ux { ty } => {
                let mut s = String::from_str("0");
                s.append(ty);
                s
            },
        }
    }

    /// Generate an expression that evaluates to a `bool` value indicating
    /// whether `expr` represents an empty set or not.
    pub fn gen_is_empty(&self, expr: &str) -> (r: String)
        ensures
            self is Empty ==> r@ == "true"@,
            self is Ux ==> r@ == expr@ + " == 0"@,
    {
        match self {
            Self::Empty => String::from_str("true"),
            Self::Ux { .. } => {
                let mut s = String::from_str(expr);
                s.append(" == 0");
                s
            },
        }
    }

    /// Generate an expression representing the set `{i}`.
    fn gen_one(&self, i: usize) -> (r: String)
        requires
            self is Ux,
        ensures
            r@ == self.spec_one(i as nat),
    {
        match self {
            Self::Empty => String::new(),
            Self::Ux { ty } => {
                let mut s = String::from_str("1");
                s.append(ty);
                if i != 0 {
                    s.append(" << ");
                    let digits = usize_to_dec_string(i);
                    s.append(digits.as_str());
                }
                s
            },
        }
    }

    /// Generate an expression representing the specified set.
    ///
    /// The unit-typed variant can render only the empty set; any element
    /// would need a bit to live in.
    pub fn gen_multi(&self, elements: &Vec<usize>) -> (r: String)
        requires
            self is Ux || elements@.len() == 0,
        ensures
            r@ == self.spec_multi(elements@),
    {
        if elements.len() == 0 {
            self.gen_empty()
        } else if elements.len() == 1 {
            self.gen_one(elements[0])
        } else {
            let mut s = String::from_str("(");
            let first = self.gen_one(elements[0]);
            s.append(first.as_str());
            s.append(")");
            let mut k: usize = 1;
            proof {
                assert(elements@.drop_first().subrange(0, 0) =~= Seq::<usize>::empty());
                assert(s@ =~= "("@ + self.spec_one(elements@[0] as nat) + ")"@
                    + self.spec_multi_tail(elements@.drop_first().subrange(0, 0)));
            }
            while k < elements.len()
                invariant
                    1 <= k <= elements@.len(),
                    self is Ux,
                    s@ == "("@ + self.spec_one(elements@[0] as nat) + ")"@ + self.spec_multi_tail(
                        elements@.drop_first().subrange(0, k - 1),
                    ),
                decreases elements@.len() - k,
            {
                s.append(" | (");
                let piece = self.gen_one(elements[k]);
                s.append(piece.as_str());
                s.append(")");
                proof {
                    let tail = elements@.drop_first();
                    self.lemma_multi_tail_push(tail.subrange(0, k - 1), tail[k - 1]);
                    assert(tail.subrange(0, k - 1).push(tail[k - 1]) =~= tail.subrange(
                        0,
                        k as int,
                    ));
                    assert(s@ =~= "("@ + self.spec_one(elements@[0] as nat) + ")"@
                        + self.spec_multi_tail(tail.subrange(0, k as int)));
                }
                k = k + 1;
            }
            proof {
                assert(elements@.drop_first().subrange(0, elements@.len() - 1)
                    =~= elements@.drop_first());
            }
            s
        }
    }

    /// Appending an element to the rendered chain appends one ` | (..)`
    /// piece.
    proof fn lemma_multi_tail_push(self, elements: Seq<usize>, x: usize)
        ensures
            self.spec_multi_tail(elements.push(x)) == self.spec_multi_tail(elements) + " | ("@
                + self.spec_one(x as nat) + ")"@,
        decreases elements.len(),
    {
        if elements.len() == 0 {
            assert(elements.push(x)[0] == x);
            assert(elements.push(x).drop_first() =~= Seq::<usize>::empty());
            assert(elements =~= Seq::<usize>::empty());
            assert(self.spec_multi_tail(Seq::<usize>::empty()) == Seq::<char>::empty());
            assert(self.spec_multi_tail(elements.push(x)) =~= self.spec_multi_tail(elements)
                + " | ("@ + self.spec_one(x as nat) + ")"@);
        } else {
            assert(elements.push(x).drop_first() =~= elements.drop_first().push(x));
            assert(elements.push(x)[0] == elements[0]);
            self.lemma_multi_tail_push(elements.drop_first(), x);
            assert(self.spec_multi_tail(elements.push(x)) == " | ("@ + self.spec_one(
                elements[0] as nat,
            ) + ")"@ + (self.spec_multi_tail(elements.drop_first()) + " | ("@ + self.spec_one(
                x as nat,
            ) + ")"@));
            assert(self.spec_multi_tail(elements.push(x)) =~= self.spec_multi_tail(elements)
                + " | ("@ + self.spec_one(x as nat) + ")"@);
        }
    }

    /// Generate an expression that evaluates to a `bool` value indicating
    /// whether `expr` includes any of `elements` as its element.
    ///
    /// The unit-typed generator renders the constant `false`: an empty set
    /// intersects nothing.
    pub fn gen_intersects(&self, expr: &str, elements: &Vec<usize>) -> (r: String)
        ensures
            self is Empty ==> r@ == "false"@,
            self is Ux ==> r@ == "("@ + expr@ + " & "@ + self.spec_multi(elements@) + ") != 0"@,
    {
        match self {
            Self::Empty => String::from_str("false"),
            Self::Ux { .. } => {
                let mut s = String::from_str("(");
                s.append(expr);
                s.append(" & ");
                let multi = self.gen_multi(elements);
                s.append(multi.as_str());
                s.append(") != 0");
                proof {
                    assert(s@ =~= "("@ + expr@ + " & "@ + self.spec_multi(elements@) + ") != 0"@);
                }
                s
            },
        }
    }

    /// Generate an expression that evaluates to a `bool` value indicating
    /// whether `expr` includes `i` as its element.
    ///
    /// The unit-typed generator renders the constant `false`: an empty set
    /// has no element.
    pub fn gen_has(&self, expr: &str, i: usize) -> (r: String)
        ensures
            self is Empty ==> r@ == "false"@,
            self is Ux ==> r@ == "("@ + expr@ + " & "@ + self.spec_one(i as nat) + ") != 0"@,
    {
        let elements = vec![i];
        assert(elements@ =~= seq![i]);
        let r = self.gen_intersects(expr, &elements);
        r
    }

    /// Generate an expression that inserts the specified elements into
    /// `expr` and evaluates to the unit value.
    ///
    /// The unit-typed variant stores no element, so there is nothing such an
    /// expression could say.
    pub fn gen_insert(&self, expr: &str, elements: &Vec<usize>) -> (r: String)
        requires
            self is Ux,
        ensures
            r@ == expr@ + " |= "@ + self.spec_multi(elements@),
    {
        let mut s = String::from_str(expr);
        s.append(" |= ");
        let multi = self.gen_multi(elements);
        s.append(multi.as_str());
        proof {
            assert(s@ =~= expr@ + " |= "@ + self.spec_multi(elements@));
        }
        s
    }

    /// Generate an expression that evaluates to the union of `expr1` and
    /// `expr2`.
    pub fn gen_union(&self, expr1: &str, expr2: &str) -> (r: String)
        ensures
            self is Empty ==> r@ == "()"@,
            self is Ux ==> r@ == expr1@ + " | "@ + expr2@,
    {
        match self {
            Self::Empty => String::from_str("()"),
            Self::Ux { .. } => {
                let mut s = String::from_str(expr1);
                s.append(" | ");
                s.append(expr2);
                proof {
                    assert(s@ =~= expr1@ + " | "@ + expr2@);
                }
                s
            },
        }
    }
}

} // verus!
