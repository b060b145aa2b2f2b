//! One token of a pointer: the name of a member, or the place of an item.

use vstd::prelude::*;
use crate::text::{all_digits, chars_of, digit_value, digits_value, is_numeral, string_of};

verus! {

/// One token of a pointer, as the characters that it stands for.
#[derive(Debug)]
pub struct Token {
    val: String,
}

/// What a token means in an array: the place of an item, or the place
/// behind the last item.
#[derive(Clone, Copy, Debug, PartialEq, Eq, Structural)]
pub enum TokenIndex {
    Index(usize),
    IndexAfterLastElem,
}

/// A token as it is written in a pointer: `~0` for `~`, and `~1` for `/`.
pub open spec fn escaped(s: Seq<char>) -> Seq<char>
    decreases s.len(),
{
    if s.len() == 0 {
        Seq::empty()
    } else if s[0] == '~' {
        seq!['~', '0'] + escaped(s.drop_first())
    } else if s[0] == '/' {
        seq!['~', '1'] + escaped(s.drop_first())
    } else {
        seq![s[0]] + escaped(s.drop_first())
    }
}

/// What a written token stands for: `~` for `~0`, and `/` for `~1`.
pub open spec fn unescaped(s: Seq<char>) -> Seq<char>
    decreases s.len(),
{
    if s.len() == 0 {
        Seq::empty()
    } else if s[0] == '~' && s.len() >= 2 && s[1] == '0' {
        seq!['~'] + unescaped(s.skip(2))
    } else if s[0] == '~' && s.len() >= 2 && s[1] == '1' {
        seq!['/'] + unescaped(s.skip(2))
    } else {
        seq![s[0]] + unescaped(s.drop_first())
    }
}

/// What a token means in an array: `-` is the place behind the last item, a
/// numeral in its shortest form that fits the machine is the place it
/// writes, and nothing else is a place.
pub open spec fn token_index(s: Seq<char>) -> Option<TokenIndex> {
    if s == seq!['-'] {
        Some(TokenIndex::IndexAfterLastElem)
    } else if is_numeral(s) && digits_value(s) <= usize::MAX {
        Some(TokenIndex::Index(digits_value(s) as usize))
    } else {
        None
    }
}

/// A written token holds no `/`.
pub proof fn lemma_escaped_has_no_slash(s: Seq<char>)
    ensures
        forall|i: int| 0 <= i < escaped(s).len() ==> escaped(s)[i] != '/',
    decreases s.len(),
{
    if s.len() > 0 {
        let rest = escaped(s.drop_first());
        lemma_escaped_has_no_slash(s.drop_first());
        let e = escaped(s);
        let head = e.len() - rest.len();
        assert forall|i: int| 0 <= i < e.len() implies e[i] != '/' by {
            if i >= head {
                assert(e[i] == rest[i - head]);
            }
        }
    }
}

/// What a written token stands for is the token that was written.
pub proof fn lemma_unescaped_escaped(s: Seq<char>)
    ensures
        unescaped(escaped(s)) == s,
    decreases s.len(),
{
    if s.len() == 0 {
    } else {
        let rest = s.drop_first();
        lemma_unescaped_escaped(rest);
        let e = escaped(s);
        if s[0] == '~' {
            assert(e.skip(2) =~= escaped(rest));
            assert(seq!['~'] + rest =~= s);
        } else if s[0] == '/' {
            assert(e.skip(2) =~= escaped(rest));
            assert(seq!['/'] + rest =~= s);
        } else {
            assert(e.drop_first() =~= escaped(rest));
            assert(seq![s[0]] + rest =~= s);
        }
    }
}

/// The digits of a longer numeral write no smaller number than those of
/// its front part.
proof fn lemma_digits_value_grows(s: Seq<char>, n: int)
    requires
        0 <= n <= s.len(),
    ensures
        digits_value(s.take(n)) <= digits_value(s),
    decreases s.len() - n,
{
    if n < s.len() {
        lemma_digits_value_grows(s, n + 1);
        assert(s.take(n + 1).drop_last() =~= s.take(n));
        assert(digits_value(s.take(n)) * 10 >= digits_value(s.take(n))) by (nonlinear_arith);
    } else {
        assert(s.take(n) =~= s);
    }
}

/// The value of a decimal digit, if the character is one.
fn digit_of_char(c: char) -> (r: Option<usize>)
    ensures
        match r {
            Some(d) => digit_value(c) == Some(d as int) && d < 10,
            None => digit_value(c) is None,
        },
{
    if c == '0' {
        Some(0)
    } else if c == '1' {
        Some(1)
    } else if c == '2' {
        Some(2)
    } else if c == '3' {
        Some(3)
    } else if c == '4' {
        Some(4)
    } else if c == '5' {
        Some(5)
    } else if c == '6' {
        Some(6)
    } else if c == '7' {
        Some(7)
    } else if c == '8' {
        Some(8)
    } else if c == '9' {
        Some(9)
    } else {
        None
    }
}

impl View for Token {
    type V = Seq<char>;

    closed spec fn view(&self) -> Seq<char> {
        self.val@
    }
}

impl Clone for Token {
    fn clone(&self) -> (r: Self)
        ensures
            r@ == self@,
    {
        Token { val: self.val.clone() }
    }
}

impl Token {
    /// The token as the name of a member.
    pub fn as_key(&self) -> (r: &str)
        ensures
            r@ == self@,
    {
        self.val.as_str()
    }

    /// The token as a place in an array, if it is one.
    pub fn as_index(&self) -> (r: Option<TokenIndex>)
        ensures
            r == token_index(self@),
    {
        let chars = chars_of(self.val.as_str());
        let ghost s = chars@;
        if chars.len() == 1 && chars[0] == '-' {
            assert(s =~= seq!['-']);
            return Some(TokenIndex::IndexAfterLastElem);
        }
        assert(s != seq!['-']) by {
            if s == seq!['-'] {
                assert(s.len() == 1 && s[0] == '-');
            }
        }
        if chars.len() == 0 {
            return None;
        }
        if chars.len() > 1 && chars[0] == '0' {
            return None;
        }
        let mut acc: usize = 0;
        let mut i: usize = 0;
        assert(s.take(0) =~= Seq::<char>::empty());
        while i < chars.len()
            invariant
                s == chars@,
                s == self@,
                s != seq!['-'],
                i <= chars@.len(),
                forall|k: int| 0 <= k < i ==> digit_value(#[trigger] s[k]) is Some,
                acc == digits_value(s.take(i as int)),
            decreases chars@.len() - i,
        {
            proof {
                assert(s.take(i + 1).drop_last() =~= s.take(i as int));
                assert(s.take(i + 1).last() == s[i as int]);
                lemma_digits_value_grows(s, i + 1);
            }
            match digit_of_char(chars[i]) {
                None => {
                    assert(digit_value(s[i as int]) is None);
                    assert(!all_digits(s));
                    return None;
                },
                Some(d) => {
                    if acc > (usize::MAX - d) / 10 {
                        assert(acc * 10 + d > usize::MAX) by (nonlinear_arith)
                            requires
                                acc > (usize::MAX - d) / 10,
                                d < 10,
                        ;
                        assert(digits_value(s.take(i + 1)) == acc * 10 + d);
                        return None;
                    }
                    assert(acc * 10 + d <= usize::MAX) by (nonlinear_arith)
                        requires
                            acc <= (usize::MAX - d) / 10,
                            d < 10,
                    ;
                    acc = acc * 10 + d;
                },
            }
            i += 1;
        }
        assert(s.take(chars@.len() as int) =~= s);
        Some(TokenIndex::Index(acc))
    }

    /// What the written token `s` stands for.
    fn unescape(s: &str) -> (r: String)
        ensures
            r@ == unescaped(s@),
    {
        let chars = chars_of(s);
        let mut out: Vec<char> = Vec::new();
        let mut i: usize = 0;
        assert(chars@.skip(0) =~= chars@);
        while i < chars.len()
            invariant
                chars@ == s@,
                i <= chars@.len(),
                out@ + unescaped(chars@.skip(i as int)) == unescaped(chars@),
            decreases chars@.len() - i,
        {
            let ghost rest = chars@.skip(i as int);
            let ghost before = out@;
            assert(rest[0] == chars@[i as int]);
            if chars[i] == '~' && i + 1 < chars.len() && (chars[i + 1] == '0' || chars[i + 1]
                == '1') {
                assert(rest[1] == chars@[i + 1]);
                assert(rest.skip(2) =~= chars@.skip(i + 2));
                if chars[i + 1] == '0' {
                    out.push('~');
                } else {
                    out.push('/');
                }
                assert(out@ + unescaped(chars@.skip(i + 2)) =~= before + unescaped(rest));
                i += 2;
            } else {
                assert(rest.drop_first() =~= chars@.skip(i + 1));
                out.push(chars[i]);
                assert(out@ + unescaped(chars@.skip(i + 1)) =~= before + unescaped(rest));
                i += 1;
            }
        }
        assert(out@ + unescaped(chars@.skip(i as int)) =~= out@);
        string_of(&out)
    }

    /// The token `s` as it is written in a pointer.
    fn escape(s: &str) -> (r: String)
        ensures
            r@ == escaped(s@),
    {
        let chars = chars_of(s);
        let mut out: Vec<char> = Vec::new();
        let mut i: usize = 0;
        assert(chars@.skip(0) =~= chars@);
        while i < chars.len()
            invariant
                chars@ == s@,
                i <= chars@.len(),
                out@ + escaped(chars@.skip(i as int)) == escaped(chars@),
            decreases chars@.len() - i,
        {
            let ghost rest = chars@.skip(i as int);
            let ghost before = out@;
            assert(rest[0] == chars@[i as int]);
            assert(rest.drop_first() =~= chars@.skip(i + 1));
            if chars[i] == '~' {
                out.push('~');
                out.push('0');
            } else if chars[i] == '/' {
                out.push('~');
                out.push('1');
            } else {
                out.push(chars[i]);
            }
            assert(out@ + escaped(chars@.skip(i + 1)) =~= before + escaped(rest));
            i += 1;
        }
        assert(out@ + escaped(chars@.skip(i as int)) =~= out@);
        string_of(&out)
    }

    /// The token that is written as `s` in a pointer.
    pub fn new(s: &str) -> (r: Self)
        ensures
            r@ == unescaped(s@),
    {
        Token { val: Self::unescape(s) }
    }

    /// The token that stands for the characters of `s` as they are.
    pub fn from_key(s: &str) -> (r: Self)
        ensures
            r@ == s@,
    {
        Token { val: s.to_owned() }
    }

    /// The token as it is written in a pointer.
    pub fn to_escaped_string(&self) -> (r: String)
        ensures
            r@ == escaped(self@),
    {
        Self::escape(self.val.as_str())
    }
}

} // verus!
