//! Text as sequences of characters: lexical order of texts and of tuples of
//! texts, and access to the characters of a string.

use vstd::prelude::*;
use vstd::std_specs::iter::IteratorSpec;

verus! {

/// `String::push` appends one character to the end of the string and leaves
/// the characters before it as they were.
pub assume_specification[ String::push ](s: &mut String, c: char)
    ensures
        final(s)@ == old(s)@.push(c),
;

/// Where one text stands relative to another in lexical order.
#[derive(Clone, Copy, Debug, PartialEq, Eq, Structural)]
pub enum Position {
    Before,
    Same,
    After,
}

/// Lexical order of two texts: the first character in which they differ
/// decides, by code point; a proper prefix comes before the longer text.
pub open spec fn lex_position(a: Seq<char>, b: Seq<char>) -> Position
    decreases a.len(),
{
    if a.len() == 0 {
        if b.len() == 0 {
            Position::Same
        } else {
            Position::Before
        }
    } else if b.len() == 0 {
        Position::After
    } else if a[0] != b[0] {
        if (a[0] as int) < (b[0] as int) {
            Position::Before
        } else {
            Position::After
        }
    } else {
        lex_position(a.drop_first(), b.drop_first())
    }
}

/// `a` comes strictly before `b` in lexical order.
pub open spec fn lex_lt(a: Seq<char>, b: Seq<char>) -> bool {
    lex_position(a, b) == Position::Before
}

/// Two texts stand at the same position exactly when they are equal.
pub proof fn lemma_position_same(a: Seq<char>, b: Seq<char>)
    ensures
        lex_position(a, b) == Position::Same <==> a == b,
    decreases a.len(),
{
    if a.len() == 0 || b.len() == 0 {
        if a.len() == 0 && b.len() == 0 {
            assert(a =~= b);
        }
    } else if a[0] == b[0] {
        lemma_position_same(a.drop_first(), b.drop_first());
        if a.drop_first() == b.drop_first() {
            assert(a =~= seq![a[0]] + a.drop_first());
            assert(b =~= seq![b[0]] + b.drop_first());
        }
    }
}

/// Swapping the two texts mirrors the position.
pub proof fn lemma_position_mirror(a: Seq<char>, b: Seq<char>)
    ensures
        lex_position(a, b) == Position::Before <==> lex_position(b, a) == Position::After,
        lex_position(a, b) == Position::After <==> lex_position(b, a) == Position::Before,
        lex_position(a, b) == Position::Same <==> lex_position(b, a) == Position::Same,
    decreases a.len(),
{
    if a.len() > 0 && b.len() > 0 && a[0] == b[0] {
        lemma_position_mirror(a.drop_first(), b.drop_first());
    }
}

/// The strict lexical order is transitive.
pub proof fn lemma_lex_lt_transitive(a: Seq<char>, b: Seq<char>, c: Seq<char>)
    requires
        lex_lt(a, b),
        lex_lt(b, c),
    ensures
        lex_lt(a, c),
    decreases a.len(),
{
    if a.len() > 0 && a[0] == b[0] && b[0] == c[0] {
        lemma_lex_lt_transitive(a.drop_first(), b.drop_first(), c.drop_first());
    }
}

/// No text comes before itself, and of two different texts one comes before
/// the other.
pub proof fn lemma_lex_lt_total(a: Seq<char>, b: Seq<char>)
    ensures
        !lex_lt(a, a),
        a != b ==> (lex_lt(a, b) || lex_lt(b, a)),
        !(lex_lt(a, b) && lex_lt(b, a)),
{
    lemma_position_same(a, a);
    lemma_position_same(a, b);
    lemma_position_mirror(a, b);
}

/// Compares two texts in lexical order.
pub fn position(a: &str, b: &str) -> (r: Position)
    ensures
        r == lex_position(a@, b@),
{
    let mut left = a.chars();
    let mut right = b.chars();
    loop
        invariant
            left.obeys_prophetic_iter_laws(),
            right.obeys_prophetic_iter_laws(),
            left.decrease() is Some,
            lex_position(a@, b@) == lex_position(left.remaining(), right.remaining()),
        decreases left.decrease()->0,
    {
        let x = left.next();
        let y = right.next();
        match (x, y) {
            (None, None) => {
                return Position::Same;
            },
            (None, Some(_)) => {
                return Position::Before;
            },
            (Some(_), None) => {
                return Position::After;
            },
            (Some(p), Some(q)) => {
                if p != q {
                    if p < q {
                        return Position::Before;
                    } else {
                        return Position::After;
                    }
                }
            },
        }
    }
}

/// Whether two texts hold the same characters.
pub fn same_text(a: &str, b: &str) -> (r: bool)
    ensures
        r == (a@ == b@),
{
    proof {
        lemma_position_same(a@, b@);
    }
    match position(a, b) {
        Position::Same => true,
        _ => false,
    }
}

/// The characters of a text, one by one.
pub fn chars_of(s: &str) -> (v: Vec<char>)
    ensures
        v@ == s@,
{
    let mut v: Vec<char> = Vec::new();
    for c in it: s.chars()
        invariant
            it.seq() == s@,
            v@ == s@.take(it.index() as int),
    {
        v.push(c);
    }
    assert(v@ == s@);
    v
}

/// Appends the characters `chars[from..to]` to `out`.
pub fn push_chars(out: &mut String, chars: &Vec<char>, from: usize, to: usize)
    requires
        from <= to <= chars.len(),
    ensures
        final(out)@ == old(out)@ + chars@.subrange(from as int, to as int),
{
    let mut i: usize = from;
    while i < to
        invariant
            from <= i <= to <= chars.len(),
            out@ == old(out)@ + chars@.subrange(from as int, i as int),
        decreases to - i,
    {
        out.push(chars[i]);
        i += 1;
    }
}

/// The text made of the characters `chars[from..to]`.
pub fn text_of(chars: &Vec<char>, from: usize, to: usize) -> (s: String)
    requires
        from <= to <= chars.len(),
    ensures
        s@ == chars@.subrange(from as int, to as int),
{
    let mut s = String::new();
    push_chars(&mut s, chars, from, to);
    s
}

/// Lexical order of two tuples of texts: the first place in which they
/// differ decides, by the lexical order of the texts there; a proper prefix
/// comes before the longer tuple.
pub open spec fn tuple_position(a: Seq<Seq<char>>, b: Seq<Seq<char>>) -> Position
    decreases a.len(),
{
    if a.len() == 0 {
        if b.len() == 0 {
            Position::Same
        } else {
            Position::Before
        }
    } else if b.len() == 0 {
        Position::After
    } else {
        match lex_position(a[0], b[0]) {
            Position::Same => tuple_position(a.drop_first(), b.drop_first()),
            p => p,
        }
    }
}

/// `a` comes strictly before `b` in the order of tuples.
pub open spec fn tuple_lt(a: Seq<Seq<char>>, b: Seq<Seq<char>>) -> bool {
    tuple_position(a, b) == Position::Before
}

/// Two tuples stand at the same position exactly when they are equal.
pub proof fn lemma_tuple_same(a: Seq<Seq<char>>, b: Seq<Seq<char>>)
    ensures
        tuple_position(a, b) == Position::Same <==> a == b,
    decreases a.len(),
{
    if a.len() == 0 || b.len() == 0 {
        if a.len() == 0 && b.len() == 0 {
            assert(a =~= b);
        }
    } else {
        lemma_position_same(a[0], b[0]);
        lemma_tuple_same(a.drop_first(), b.drop_first());
        if a[0] == b[0] && a.drop_first() == b.drop_first() {
            assert(a =~= seq![a[0]] + a.drop_first());
            assert(b =~= seq![b[0]] + b.drop_first());
        }
    }
}

/// Swapping the two tuples mirrors the position.
pub proof fn lemma_tuple_mirror(a: Seq<Seq<char>>, b: Seq<Seq<char>>)
    ensures
        tuple_position(a, b) == Position::Before <==> tuple_position(b, a) == Position::After,
        tuple_position(a, b) == Position::After <==> tuple_position(b, a) == Position::Before,
        tuple_position(a, b) == Position::Same <==> tuple_position(b, a) == Position::Same,
    decreases a.len(),
{
    if a.len() > 0 && b.len() > 0 {
        lemma_position_mirror(a[0], b[0]);
        lemma_tuple_mirror(a.drop_first(), b.drop_first());
    }
}

/// The strict order of tuples is transitive.
pub proof fn lemma_tuple_lt_transitive(a: Seq<Seq<char>>, b: Seq<Seq<char>>, c: Seq<Seq<char>>)
    requires
        tuple_lt(a, b),
        tuple_lt(b, c),
    ensures
        tuple_lt(a, c),
    decreases a.len(),
{
    if a.len() > 0 {
        lemma_position_same(a[0], b[0]);
        lemma_position_same(b[0], c[0]);
        lemma_position_same(a[0], c[0]);
        if lex_lt(a[0], b[0]) && lex_lt(b[0], c[0]) {
            lemma_lex_lt_transitive(a[0], b[0], c[0]);
        }
        if a[0] == b[0] && b[0] == c[0] {
            lemma_tuple_lt_transitive(a.drop_first(), b.drop_first(), c.drop_first());
        }
    }
}

/// The texts of a vector, as a tuple.
pub open spec fn texts(v: Seq<String>) -> Seq<Seq<char>> {
    v.map_values(|s: String| s@)
}

/// Compares two tuples of texts.
pub fn tuple_position_of(a: &Vec<String>, b: &Vec<String>) -> (r: Position)
    ensures
        r == tuple_position(texts(a@), texts(b@)),
{
    let ghost ta = texts(a@);
    let ghost tb = texts(b@);
    let mut i: usize = 0;
    assert(ta.skip(0) =~= ta && tb.skip(0) =~= tb);
    while i < a.len() && i < b.len()
        invariant
            i <= a.len(),
            i <= b.len(),
            ta == texts(a@),
            tb == texts(b@),
            tuple_position(ta, tb) == tuple_position(ta.skip(i as int), tb.skip(i as int)),
        decreases a.len() - i,
    {
        proof {
            assert(ta.skip(i as int).drop_first() =~= ta.skip(i + 1));
            assert(tb.skip(i as int).drop_first() =~= tb.skip(i + 1));
            assert(ta.skip(i as int)[0] == a@[i as int]@);
            assert(tb.skip(i as int)[0] == b@[i as int]@);
        }
        match position(a[i].as_str(), b[i].as_str()) {
            Position::Same => {
                i += 1;
            },
            Position::Before => {
                return Position::Before;
            },
            Position::After => {
                return Position::After;
            },
        }
    }
    if i < b.len() {
        Position::Before
    } else if i < a.len() {
        Position::After
    } else {
        Position::Same
    }
}

} // verus!
