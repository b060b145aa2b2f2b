//! A pointer into a document: the tokens that lead from the root to a node,
//! and the text that writes them.

use vstd::prelude::*;
use crate::error::{Failure, JsonPatchError};
use crate::members::find_member;
use crate::path::{Path, PathElem, Step};
use crate::text::{
    chars_of, decimal, decimal_chars, digit_value, lemma_decimal_numeral, lemma_numeral_decimal,
    string_of,
};
use crate::jsonptr::token::{
    escaped, lemma_escaped_has_no_slash, lemma_unescaped_escaped, token_index, unescaped, Token,
    TokenIndex,
};
use crate::value::{lemma_array_view, lemma_object_view, member, Json, JsonValue};
use crate::jsonptr::value_mut_ref::{locate, Place, ValueMutRef};

verus! {

/// The tokens that lead from the root of a document to one of its nodes.
#[derive(Debug)]
pub struct JsonPointer {
    tokens: Vec<Token>,
}

impl View for JsonPointer {
    type V = Seq<Seq<char>>;

    closed spec fn view(&self) -> Seq<Seq<char>> {
        Seq::new(self.tokens@.len(), |i: int| self.tokens@[i]@)
    }
}

/// The text of a pointer: every token as it is written, behind a `/`. The
/// pointer to the root is the empty text.
pub open spec fn pointer_text(tokens: Seq<Seq<char>>) -> Seq<char>
    decreases tokens.len(),
{
    if tokens.len() == 0 {
        Seq::empty()
    } else {
        pointer_text(tokens.drop_last()) + seq!['/'] + escaped(tokens.last())
    }
}

/// The pieces of a text between its `/`s. A text without `/` is one piece.
pub open spec fn pieces(s: Seq<char>) -> Seq<Seq<char>>
    decreases s.len(),
{
    if s.len() == 0 {
        seq![Seq::empty()]
    } else if s.last() == '/' {
        pieces(s.drop_last()).push(Seq::empty())
    } else {
        let front = pieces(s.drop_last());
        front.drop_last().push(front.last().push(s.last()))
    }
}

/// The tokens that a text writes, if it is the text of a pointer: the empty
/// text writes no token, and any other text must begin with `/` and writes
/// one token between every two `/`s and one behind the last.
pub open spec fn parse_pointer(s: Seq<char>) -> Option<Seq<Seq<char>>> {
    if s.len() == 0 {
        Some(Seq::empty())
    } else if s[0] != '/' {
        None
    } else {
        Some(pieces(s.drop_first()).map_values(|piece: Seq<char>| unescaped(piece)))
    }
}

/// A text followed by `/` and by a text without `/` has the pieces of the
/// first and then the second as one more piece.
pub proof fn lemma_pieces_append(s: Seq<char>, t: Seq<char>)
    requires
        forall|i: int| 0 <= i < t.len() ==> t[i] != '/',
    ensures
        pieces(s + seq!['/'] + t) == pieces(s).push(t),
    decreases t.len(),
{
    let whole = s + seq!['/'] + t;
    if t.len() == 0 {
        assert(whole.drop_last() =~= s);
        assert(t =~= Seq::<char>::empty());
    } else {
        let front = t.drop_last();
        lemma_pieces_append(s, front);
        assert(whole.drop_last() =~= s + seq!['/'] + front);
        assert(whole.last() == t.last());
        let p = pieces(s).push(front);
        assert(p.drop_last() =~= pieces(s));
        assert(front.push(t.last()) =~= t);
    }
}

/// A text without `/` is one piece.
pub proof fn lemma_pieces_single(t: Seq<char>)
    requires
        forall|i: int| 0 <= i < t.len() ==> t[i] != '/',
    ensures
        pieces(t) == seq![t],
    decreases t.len(),
{
    if t.len() == 0 {
        assert(t =~= Seq::<char>::empty());
    } else {
        let front = t.drop_last();
        lemma_pieces_single(front);
        assert(front.push(t.last()) =~= t);
        assert(seq![front].last() == front);
        assert(seq![front].drop_last().push(t) =~= seq![t]);
    }
}

/// The text of a pointer with tokens begins with `/`, and what follows
/// falls into the written tokens.
pub proof fn lemma_pointer_text_pieces(tokens: Seq<Seq<char>>)
    requires
        tokens.len() > 0,
    ensures
        pointer_text(tokens).len() > 0,
        pointer_text(tokens)[0] == '/',
        pieces(pointer_text(tokens).drop_first()) == tokens.map_values(|t: Seq<char>| escaped(t)),
    decreases tokens.len(),
{
    let front = tokens.drop_last();
    let last = escaped(tokens.last());
    lemma_escaped_has_no_slash(tokens.last());
    let written = tokens.map_values(|t: Seq<char>| escaped(t));
    if front.len() == 0 {
        assert(pointer_text(front) =~= Seq::<char>::empty());
        assert(pointer_text(tokens).drop_first() =~= last);
        lemma_pieces_single(last);
        assert(written =~= seq![last]);
    } else {
        lemma_pointer_text_pieces(front);
        let head = pointer_text(front);
        assert(pointer_text(tokens).drop_first() =~= head.drop_first() + seq!['/'] + last);
        lemma_pieces_append(head.drop_first(), last);
        assert(written =~= front.map_values(|t: Seq<char>| escaped(t)).push(last));
    }
}

/// Reading the text of a pointer gives the pointer back.
pub proof fn lemma_pointer_round_trip(tokens: Seq<Seq<char>>)
    ensures
        parse_pointer(pointer_text(tokens)) == Some(tokens),
{
    if tokens.len() > 0 {
        lemma_pointer_text_pieces(tokens);
        let read = parse_pointer(pointer_text(tokens))->0;
        assert forall|i: int| 0 <= i < tokens.len() implies read[i] == tokens[i] by {
            lemma_unescaped_escaped(tokens[i]);
        }
        assert(read =~= tokens);
    }
}


/// The token that writes a step of a path: a key as it is, an index as its
/// numeral.
pub open spec fn step_token(step: Step) -> Seq<char> {
    match step {
        Step::Key(k) => k,
        Step::Index(i) => decimal(i),
    }
}

/// The tokens that write the steps of a path.
pub open spec fn path_tokens(path: Seq<Step>) -> Seq<Seq<char>> {
    path.map_values(|step: Step| step_token(step))
}

/// The step that a token writes: an index where the token is the numeral
/// of a place, and else a key.
pub open spec fn token_step(token: Seq<char>) -> Step {
    match token_index(token) {
        Some(TokenIndex::Index(i)) => Step::Index(i as nat),
        _ => Step::Key(token),
    }
}

/// The path that tokens write.
pub open spec fn tokens_path(tokens: Seq<Seq<char>>) -> Seq<Step> {
    tokens.map_values(|token: Seq<char>| token_step(token))
}

/// The path that a text writes, if it is the text of a pointer.
pub open spec fn parse_path(s: Seq<char>) -> Option<Seq<Step>> {
    match parse_pointer(s) {
        Some(tokens) => Some(tokens_path(tokens)),
        None => None,
    }
}

/// A step that is written and read again is the same step: an index that
/// fits the machine, or a key that is not the numeral of a place.
pub open spec fn step_survives(step: Step) -> bool {
    match step {
        Step::Key(k) => !(token_index(k) matches Some(TokenIndex::Index(_))),
        Step::Index(i) => i <= usize::MAX,
    }
}

/// The path that tokens write is written by these tokens again.
pub proof fn lemma_tokens_of_path_of_tokens(tokens: Seq<Seq<char>>)
    ensures
        path_tokens(tokens_path(tokens)) == tokens,
{
    assert forall|i: int| 0 <= i < tokens.len() implies step_token(token_step(tokens[i]))
        == tokens[i] by {
        if token_index(tokens[i]) matches Some(TokenIndex::Index(_)) {
            lemma_numeral_decimal(tokens[i]);
        }
    }
    assert(path_tokens(tokens_path(tokens)) =~= tokens);
}

/// Writing a path as the text of a pointer and reading that text gives the
/// path back, where every step of it survives being written.
pub proof fn lemma_path_round_trip(path: Seq<Step>)
    requires
        forall|i: int| 0 <= i < path.len() ==> step_survives(#[trigger] path[i]),
    ensures
        parse_path(pointer_text(path_tokens(path))) == Some(path),
{
    lemma_pointer_round_trip(path_tokens(path));
    assert forall|i: int| 0 <= i < path.len() implies token_step(step_token(path[i]))
        == path[i] by {
        assert(step_survives(path[i]));
        match path[i] {
            Step::Key(k) => {},
            Step::Index(n) => {
                lemma_decimal_numeral(n);
                assert(decimal(n) != seq!['-']) by {
                    if decimal(n) == seq!['-'] {
                        assert(digit_value(decimal(n)[0]) is Some);
                    }
                }
            },
        }
    }
    assert(tokens_path(path_tokens(path)) =~= path);
}

/// One step down from `node` by `token`: into the member of that name, or
/// to the item at that place.
pub open spec fn step_into(node: Json, token: Seq<char>) -> Result<Json, Failure> {
    match node {
        Json::Array(items) => match token_index(token) {
            Some(TokenIndex::Index(i)) => if i < items.len() {
                Ok(items[i as int])
            } else {
                Err(Failure::IndexOutOfRange { index: i as nat, len: items.len() })
            },
            _ => Err(Failure::InvalidIndex),
        },
        Json::Object(members) => match member(members, token) {
            Some(v) => Ok(v),
            None => Err(Failure::KeyNotFound { key: token }),
        },
        _ => Err(Failure::NotContainer),
    }
}

/// The node that the tokens lead to from `tree`, or why the first step that
/// cannot be taken fails.
pub open spec fn resolve(tree: Json, tokens: Seq<Seq<char>>) -> Result<Json, Failure>
    decreases tokens.len(),
{
    if tokens.len() == 0 {
        Ok(tree)
    } else {
        match step_into(tree, tokens[0]) {
            Ok(child) => resolve(child, tokens.drop_first()),
            Err(e) => Err(e),
        }
    }
}

/// One step down from `node` by `token`.
pub fn step_ref<'a>(node: &'a JsonValue, token: &Token) -> (r: Result<
    &'a JsonValue,
    JsonPatchError,
>)
    ensures
        match r {
            Ok(child) => step_into(node@, token@) == Ok::<Json, Failure>(child@),
            Err(e) => step_into(node@, token@) == Err::<Json, Failure>(e@),
        },
{
    match node {
        JsonValue::Array(arr) => {
            proof {
                lemma_array_view(*node);
            }
            match token.as_index() {
                Some(TokenIndex::Index(idx)) => {
                    if idx < arr.len() {
                        Ok(&arr[idx])
                    } else {
                        Err(JsonPatchError::IndexOutOfRange { index: idx, len: arr.len() })
                    }
                },
                _ => Err(JsonPatchError::InvalidIndex),
            }
        },
        JsonValue::Object(obj) => {
            proof {
                lemma_object_view(*node);
            }
            let key = token.as_key();
            match find_member(obj, key) {
                Some(at) => Ok(&obj[at].1),
                None => Err(JsonPatchError::KeyNotFound { key: key.to_owned() }),
            }
        },
        _ => Err(JsonPatchError::NotContainer),
    }
}

impl Clone for JsonPointer {
    fn clone(&self) -> (r: Self)
        ensures
            r@ == self@,
    {
        let mut out: Vec<Token> = Vec::new();
        let mut i: usize = 0;
        while i < self.tokens.len()
            invariant
                i <= self.tokens@.len(),
                out@.len() == i,
                forall|k: int| 0 <= k < i ==> out@[k]@ == self.tokens@[k]@,
            decreases self.tokens@.len() - i,
        {
            out.push(self.tokens[i].clone());
            i += 1;
        }
        let r = JsonPointer { tokens: out };
        assert(r@ =~= self@);
        r
    }
}

impl JsonPointer {
    /// How many tokens the pointer has.
    pub fn len(&self) -> (r: usize)
        ensures
            r == self@.len(),
    {
        self.tokens.len()
    }

    /// The token at place `i`.
    pub fn token(&self, i: usize) -> (r: &Token)
        requires
            i < self@.len(),
        ensures
            r@ == self@[i as int],
    {
        &self.tokens[i]
    }

    /// The pointer of the given tokens.
    pub fn from_tokens(tokens: Vec<Token>) -> (r: Self)
        ensures
            r@ == Seq::new(tokens@.len(), |i: int| tokens@[i]@),
    {
        JsonPointer { tokens }
    }

    /// The first `n` tokens of the pointer.
    pub fn prefix(&self, n: usize) -> (r: Self)
        requires
            n <= self@.len(),
        ensures
            r@ == self@.take(n as int),
    {
        let mut out: Vec<Token> = Vec::new();
        let mut i: usize = 0;
        while i < n
            invariant
                n <= self.tokens@.len(),
                i <= n,
                out@.len() == i,
                forall|k: int| 0 <= k < i ==> out@[k]@ == self.tokens@[k]@,
            decreases n - i,
        {
            out.push(self.tokens[i].clone());
            i += 1;
        }
        let r = JsonPointer { tokens: out };
        assert(r@ =~= self@.take(n as int));
        r
    }

    /// The node of `val` that the pointer leads to.
    pub fn get<'a>(&self, val: &'a JsonValue) -> (r: Result<&'a JsonValue, JsonPatchError>)
        ensures
            match r {
                Ok(node) => resolve(val@, self@) == Ok::<Json, Failure>(node@),
                Err(e) => resolve(val@, self@) == Err::<Json, Failure>(e@),
            },
    {
        let mut cur_ref = val;
        let mut i: usize = 0;
        assert(self@.skip(0) =~= self@);
        while i < self.tokens.len()
            invariant
                i <= self.tokens@.len(),
                resolve(val@, self@) == resolve(cur_ref@, self@.skip(i as int)),
            decreases self.tokens@.len() - i,
        {
            proof {
                assert(self@.skip(i as int)[0] == self.tokens@[i as int]@);
                assert(self@.skip(i as int).drop_first() =~= self@.skip(i + 1));
            }
            match step_ref(cur_ref, &self.tokens[i]) {
                Ok(child) => {
                    cur_ref = child;
                },
                Err(e) => {
                    return Err(e);
                },
            }
            i += 1;
        }
        Ok(cur_ref)
    }

    /// The place in `val` that the pointer names: the root for a pointer
    /// without tokens, else its last token in the array or object that the
    /// tokens before it lead to. The node itself need not be there.
    pub fn get_mut(&self, val: &JsonValue) -> (r: Result<ValueMutRef, JsonPatchError>)
        ensures
            match r {
                Ok(place) => locate(val@, self@) == Ok::<Place, Failure>(place@),
                Err(e) => locate(val@, self@) == Err::<Place, Failure>(e@),
            },
    {
        if self.tokens.len() == 0 {
            return Ok(ValueMutRef::Root);
        }
        let parent = self.prefix(self.tokens.len() - 1);
        let last_token = &self.tokens[self.tokens.len() - 1];
        proof {
            assert(self@.drop_last() =~= self@.take(self@.len() - 1));
            assert(self@.last() == last_token@);
        }
        match parent.get(val) {
            Err(e) => Err(e),
            Ok(JsonValue::Array(_)) => match last_token.as_index() {
                Some(idx) => Ok(ValueMutRef::ArrayElem { parent, idx }),
                None => Err(JsonPatchError::InvalidIndex),
            },
            Ok(JsonValue::Object(_)) => Ok(
                ValueMutRef::ObjElem { parent, key: last_token.as_key().to_owned() },
            ),
            Ok(_) => Err(JsonPatchError::NotContainer),
        }
    }

    /// The pointer that writes `path`: a key as it is, an index as its
    /// numeral.
    pub fn from_path(path: &Path) -> (r: Self)
        ensures
            r@ == path_tokens(path@),
    {
        let mut tokens: Vec<Token> = Vec::new();
        let mut i: usize = 0;
        while i < path.0.len()
            invariant
                i <= path.0@.len(),
                tokens@.len() == i,
                forall|k: int| 0 <= k < i ==> tokens@[k]@ == step_token(path.0@[k]@),
            decreases path.0@.len() - i,
        {
            let token = match &path.0[i] {
                PathElem::Key(s) => Token::from_key(s.as_str()),
                PathElem::Index(n) => {
                    let word = string_of(&decimal_chars(*n));
                    Token::from_key(word.as_str())
                },
            };
            tokens.push(token);
            i += 1;
        }
        let r = JsonPointer { tokens };
        assert(r@ =~= path_tokens(path@));
        r
    }

    /// The path that the pointer writes: an index for a token that is the
    /// numeral of a place, a key for any other.
    pub fn to_path(&self) -> (r: Path)
        ensures
            r@ == tokens_path(self@),
    {
        let mut steps: Vec<PathElem> = Vec::new();
        let mut i: usize = 0;
        while i < self.tokens.len()
            invariant
                i <= self.tokens@.len(),
                steps@.len() == i,
                forall|k: int| 0 <= k < i ==> steps@[k]@ == token_step(self.tokens@[k]@),
            decreases self.tokens@.len() - i,
        {
            let step = match self.tokens[i].as_index() {
                Some(TokenIndex::Index(n)) => PathElem::Index(n),
                _ => PathElem::Key(self.tokens[i].as_key().to_owned()),
            };
            steps.push(step);
            i += 1;
        }
        let r = Path(steps);
        assert(r@ =~= tokens_path(self@));
        r
    }

    /// The text of the pointer.
    pub fn to_escaped_string(&self) -> (r: String)
        ensures
            r@ == pointer_text(self@),
    {
        let mut out: Vec<char> = Vec::new();
        let mut i: usize = 0;
        assert(self@.take(0) =~= Seq::<Seq<char>>::empty());
        while i < self.tokens.len()
            invariant
                i <= self.tokens@.len(),
                out@ == pointer_text(self@.take(i as int)),
            decreases self.tokens@.len() - i,
        {
            out.push('/');
            let word = chars_of(self.tokens[i].to_escaped_string().as_str());
            let ghost before = out@;
            let mut k: usize = 0;
            while k < word.len()
                invariant
                    k <= word@.len(),
                    out@ == before + word@.subrange(0, k as int),
                decreases word@.len() - k,
            {
                out.push(word[k]);
                assert(out@ =~= before + word@.subrange(0, k + 1));
                k += 1;
            }
            proof {
                assert(word@.subrange(0, word@.len() as int) =~= word@);
                let next = self@.take(i + 1);
                assert(next.drop_last() =~= self@.take(i as int));
                assert(next.last() == self@[i as int]);
            }
            i += 1;
        }
        assert(self@.take(self@.len() as int) =~= self@);
        string_of(&out)
    }

    /// The pointer that the text `s` writes.
    fn parse(s: &str) -> (r: Result<Self, JsonPatchError>)
        ensures
            match r {
                Ok(p) => parse_pointer(s@) == Some(p@),
                Err(e) => parse_pointer(s@) is None && e@ == Failure::MalformedPointer,
            },
    {
        let chars = chars_of(s);
        if chars.len() == 0 {
            let r = JsonPointer { tokens: Vec::new() };
            assert(r@ =~= Seq::<Seq<char>>::empty());
            return Ok(r);
        }
        if chars[0] != '/' {
            return Err(JsonPatchError::MalformedPointer);
        }
        let ghost rest = chars@.drop_first();
        let ghost mut raw: Seq<Seq<char>> = Seq::empty();
        let mut tokens: Vec<Token> = Vec::new();
        let mut cur: Vec<char> = Vec::new();
        let mut i: usize = 1;
        assert(rest.take(0) =~= Seq::<char>::empty());
        assert(pieces(rest.take(0)) =~= raw.push(cur@));
        while i < chars.len()
            invariant
                chars@ == s@,
                rest == chars@.drop_first(),
                1 <= i <= chars@.len(),
                pieces(rest.take(i - 1)) == raw.push(cur@),
                tokens@.len() == raw.len(),
                forall|k: int| 0 <= k < raw.len() ==> tokens@[k]@ == unescaped(#[trigger] raw[k]),
            decreases chars@.len() - i,
        {
            proof {
                assert(rest.take(i as int).drop_last() =~= rest.take(i - 1));
                assert(rest.take(i as int).last() == chars@[i as int]);
                assert(raw.push(cur@).last() == cur@);
                assert(raw.push(cur@).drop_last() =~= raw);
            }
            if chars[i] == '/' {
                let word = string_of(&cur);
                tokens.push(Token::new(word.as_str()));
                proof {
                    raw = raw.push(cur@);
                }
                cur = Vec::new();
            } else {
                cur.push(chars[i]);
            }
            i += 1;
        }
        let word = string_of(&cur);
        tokens.push(Token::new(word.as_str()));
        let r = JsonPointer { tokens };
        proof {
            assert(rest.take(chars@.len() - 1) =~= rest);
            let all = raw.push(cur@);
            assert(r@ =~= all.map_values(|piece: Seq<char>| unescaped(piece)));
        }
        Ok(r)
    }

    /// The pointer that the text `s` writes: no token for the empty text,
    /// else one token behind every `/`; a text that is not empty and does
    /// not begin with `/` writes no pointer.
    pub fn new(s: &str) -> (r: Result<Self, JsonPatchError>)
        ensures
            match r {
                Ok(p) => parse_pointer(s@) == Some(p@),
                Err(e) => parse_pointer(s@) is None && e@ == Failure::MalformedPointer,
            },
    {
        Self::parse(s)
    }
}

} // verus!
