//! Splitting and joining text at a separator.

use vstd::prelude::*;

verus! {

/// The pieces of `s` between the occurrences of `sep`: one more piece than
/// `s` holds separators, some perhaps empty.
pub open spec fn split(s: Seq<char>, sep: char) -> Seq<Seq<char>>
    decreases s.len(),
{
    if s.len() == 0 {
        seq![Seq::empty()]
    } else {
        let before = split(s.drop_last(), sep);
        if s.last() == sep {
            before.push(Seq::empty())
        } else {
            before.drop_last().push(before.last().push(s.last()))
        }
    }
}

/// The pieces with `sep` between each two neighbours.
pub open spec fn join(parts: Seq<Seq<char>>, sep: char) -> Seq<char>
    decreases parts.len(),
{
    if parts.len() == 0 {
        Seq::empty()
    } else if parts.len() == 1 {
        parts[0]
    } else {
        join(parts.drop_last(), sep).push(sep) + parts.last()
    }
}

/// `String::push`: the character is appended.
#[verifier::external_body]
pub(crate) fn push_char(s: &mut String, c: char)
    ensures
        final(s)@ == old(s)@.push(c),
{
    s.push(c)
}

/// The characters of `text`.
pub(crate) fn chars_of(text: &str) -> (r: Vec<char>)
    ensures
        r@ == text@,
{
    let mut r: Vec<char> = Vec::new();
    for c in it: text.chars()
        invariant
            it.seq() == text@,
            r@ == text@.take(it.index() as int),
    {
        r.push(c);
    }
    r
}

/// `s` holds no `sep`.
pub open spec fn free_of(s: Seq<char>, sep: char) -> bool {
    !s.contains(sep)
}

/// Text that ends in a piece free of the separator splits like the text
/// before that piece, whose last piece the new one lengthens.
pub proof fn lemma_split_append(a: Seq<char>, b: Seq<char>, sep: char)
    requires
        free_of(b, sep),
    ensures
        split(a, sep).len() >= 1,
        split(a + b, sep) == split(a, sep).drop_last().push(split(a, sep).last() + b),
    decreases b.len(),
{
    lemma_split_len(a, sep);
    if b.len() > 0 {
        let b0 = b.drop_last();
        lemma_split_append(a, b0, sep);
        assert((a + b).drop_last() =~= a + b0);
        let before = split(a + b0, sep);
        assert(before.last().push(b.last()) =~= split(a, sep).last() + b);
    }
}

/// A text splits into at least one piece.
pub proof fn lemma_split_len(s: Seq<char>, sep: char)
    ensures
        split(s, sep).len() >= 1,
    decreases s.len(),
{
    if s.len() > 0 {
        lemma_split_len(s.drop_last(), sep);
    }
}

/// Splitting undoes joining, for one piece or more, each free of the
/// separator.
pub proof fn lemma_split_join(parts: Seq<Seq<char>>, sep: char)
    requires
        parts.len() >= 1,
        forall|i: int| 0 <= i < parts.len() ==> free_of(#[trigger] parts[i], sep),
    ensures
        split(join(parts, sep), sep) == parts,
    decreases parts.len(),
{
    if parts.len() == 1 {
        lemma_split_append(Seq::empty(), parts[0], sep);
    } else {
        let init = parts.drop_last();
        lemma_split_join(init, sep);
        let head = join(init, sep).push(sep);
        assert(head.drop_last() =~= join(init, sep));
        lemma_split_append(head, parts.last(), sep);
    }
}

/// Joining one piece more: the piece alone where it is the first, else
/// the join so far, the separator and the piece.
pub proof fn lemma_join_step(parts: Seq<Seq<char>>, c: int, sep: char)
    requires
        0 <= c < parts.len(),
    ensures
        join(parts.take(c + 1), sep) == if c == 0 {
            parts[0]
        } else {
            join(parts.take(c), sep).push(sep) + parts[c]
        },
{
    if c > 0 {
        assert(parts.take(c + 1).drop_last() =~= parts.take(c));
    }
}

/// Pieces free of a character, joined by another separator, make a text
/// free of that character.
pub proof fn lemma_join_free(parts: Seq<Seq<char>>, sep: char, ch: char)
    requires
        sep != ch,
        forall|i: int| 0 <= i < parts.len() ==> free_of(#[trigger] parts[i], ch),
    ensures
        free_of(join(parts, sep), ch),
    decreases parts.len(),
{
    if parts.len() >= 2 {
        lemma_join_free(parts.drop_last(), sep, ch);
    }
}

/// How a join of two or more pieces ends: in the last character of the
/// last piece, or in the separator where that piece is empty.
pub proof fn lemma_join_last(parts: Seq<Seq<char>>, sep: char)
    requires
        parts.len() >= 2,
    ensures
        join(parts, sep).len() > 0,
        join(parts, sep).last() == if parts.last().len() > 0 {
            parts.last().last()
        } else {
            sep
        },
{
}

/// The lines `ls`, each followed by a line break.
pub open spec fn terminated(ls: Seq<Seq<char>>) -> Seq<char>
    decreases ls.len(),
{
    if ls.len() == 0 {
        Seq::empty()
    } else {
        terminated(ls.drop_last()) + ls.last().push('\n')
    }
}

/// Lines free of line breaks, each followed by one, split at the line
/// breaks into those lines and an empty piece behind them.
pub proof fn lemma_split_terminated(ls: Seq<Seq<char>>)
    requires
        forall|i: int| 0 <= i < ls.len() ==> free_of(#[trigger] ls[i], '\n'),
    ensures
        split(terminated(ls), '\n') == ls.push(Seq::empty()),
    decreases ls.len(),
{
    if ls.len() > 0 {
        let init = ls.drop_last();
        lemma_split_terminated(init);
        lemma_split_append(terminated(init), ls.last(), '\n');
        assert(terminated(ls).drop_last() =~= terminated(init) + ls.last());
    }
}

/// A filter that every element passes keeps the sequence as it is.
pub proof fn lemma_filter_all<A>(s: Seq<A>, pred: spec_fn(A) -> bool)
    requires
        forall|i: int| 0 <= i < s.len() ==> pred(#[trigger] s[i]),
    ensures
        s.filter(pred) == s,
    decreases s.len(),
{
    reveal(Seq::filter);
    if s.len() > 0 {
        lemma_filter_all(s.drop_last(), pred);
    }
}

/// The pieces of `s` between the occurrences of `sep`.
pub(crate) fn split_chars(s: &Vec<char>, sep: char) -> (r: Vec<Vec<char>>)
    ensures
        r@.len() == split(s@, sep).len(),
        forall|i: int| 0 <= i < r@.len() ==> (#[trigger] r@[i])@ == split(s@, sep)[i],
{
    let mut done: Vec<Vec<char>> = Vec::new();
    let mut piece: Vec<char> = Vec::new();
    let n = s.len();
    let mut i: usize = 0;
    while i < n
        invariant
            i <= n,
            n == s@.len(),
            split(s@.take(i as int), sep).len() == done@.len() + 1,
            forall|j: int| 0 <= j < done@.len() ==> (#[trigger] done@[j])@ == split(s@.take(i as int), sep)[j],
            piece@ == split(s@.take(i as int), sep).last(),
        decreases n - i,
    {
        let c = s[i];
        proof {
            assert(s@.take(i + 1).drop_last() =~= s@.take(i as int));
        }
        if c == sep {
            done.push(piece);
            piece = Vec::new();
        } else {
            piece.push(c);
        }
        i += 1;
    }
    proof {
        assert(s@.take(n as int) =~= s@);
    }
    done.push(piece);
    done
}

/// The string made of the characters `chars`.
pub(crate) fn string_of(chars: &Vec<char>) -> (s: String)
    ensures
        s@ == chars@,
{
    let mut s = String::new();
    let n = chars.len();
    let mut i: usize = 0;
    while i < n
        invariant
            i <= n,
            n == chars@.len(),
            s@ == chars@.take(i as int),
        decreases n - i,
    {
        push_char(&mut s, chars[i]);
        i += 1;
    }
    s
}

} // verus!
