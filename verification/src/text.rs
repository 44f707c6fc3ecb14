use vstd::prelude::*;

verus! {

/// The lowercase form of an ASCII capital; every other character is left as it is.
pub open spec fn lower(c: char) -> char {
    if 'A' <= c && c <= 'Z' {
        ((c as u8) + 32) as char
    } else {
        c
    }
}

/// The capital form of an ASCII lowercase letter; every other character is left as it is.
pub open spec fn upper(c: char) -> char {
    if 'a' <= c && c <= 'z' {
        ((c as u8) - 32) as char
    } else {
        c
    }
}

/// A text with every ASCII capital replaced by its lowercase form.
pub open spec fn lowercase(text: Seq<char>) -> Seq<char> {
    Seq::new(text.len(), |i: int| lower(text[i]))
}

/// A text with every ASCII lowercase letter replaced by its capital.
pub open spec fn uppercase(text: Seq<char>) -> Seq<char> {
    Seq::new(text.len(), |i: int| upper(text[i]))
}

/// The words of `words`, in order, with `separator` between each two neighbours.
pub open spec fn join(words: Seq<Seq<char>>, separator: Seq<char>) -> Seq<char>
    decreases words.len(),
{
    if words.len() == 0 {
        Seq::empty()
    } else if words.len() == 1 {
        words[0]
    } else {
        join(words.drop_last(), separator) + separator + words.last()
    }
}

/// The pieces of `text` between the occurrences of `separator`. A text without the
/// separator is one piece; a text of n separators has n + 1 pieces, which may be empty.
pub open spec fn split(text: Seq<char>, separator: char) -> Seq<Seq<char>>
    decreases text.len(),
{
    if text.len() == 0 {
        seq![Seq::empty()]
    } else {
        let before = split(text.drop_last(), separator);
        if text.last() == separator {
            before.push(Seq::empty())
        } else {
            before.drop_last().push(before.last().push(text.last()))
        }
    }
}

/// The consecutive pairs of characters of `text`. Where the length is odd, the last
/// piece is the single character that is left over.
pub open spec fn pairs(text: Seq<char>) -> Seq<Seq<char>> {
    Seq::new(
        ((text.len() + 1) / 2) as nat,
        |i: int| text.subrange(2 * i, if 2 * i + 2 <= text.len() { 2 * i + 2 } else { text.len() as int }),
    )
}

/// What a vector of tokens holds: the characters of each token.
pub open spec fn token_views(tokens: Seq<Vec<char>>) -> Seq<Seq<char>> {
    Seq::new(tokens.len(), |i: int| tokens[i]@)
}

/// The lowercase form of an ASCII capital, and every other character as it is.
pub fn to_lower(c: char) -> (lowered: char)
    ensures
        lowered == lower(c),
{
    if 'A' <= c && c <= 'Z' {
        ((c as u8) + 32) as char
    } else {
        c
    }
}

/// The characters of a string slice.
pub fn chars_of(text: &str) -> (chars: Vec<char>)
    ensures
        chars@ == text@,
{
    let mut chars: Vec<char> = Vec::new();
    for c in it: text.chars()
        invariant
            chars@ == it.seq().take(it.index() as int),
    {
        chars.push(c);
    }
    chars
}

/// Splits a text at every occurrence of the separator.
pub fn split_chars(chars: &[char], separator: char) -> (tokens: Vec<Vec<char>>)
    ensures
        token_views(tokens@) == split(chars@, separator),
{
    let mut tokens: Vec<Vec<char>> = Vec::new();
    let mut current: Vec<char> = Vec::new();
    let mut i: usize = 0;
    assert(chars@.take(0) =~= Seq::empty());
    assert(token_views(tokens@).push(current@) =~= split(chars@.take(0), separator));
    while i < chars.len()
        invariant
            i <= chars.len(),
            token_views(tokens@).push(current@) == split(chars@.take(i as int), separator),
        decreases chars.len() - i,
    {
        let c = chars[i];
        let ghost before = token_views(tokens@).push(current@);
        proof {
            let prefix = chars@.take(i + 1);
            assert(prefix.drop_last() =~= chars@.take(i as int));
            assert(prefix.last() == c);
        }
        if c == separator {
            tokens.push(current);
            current = Vec::new();
            assert(token_views(tokens@).push(current@) =~= before.push(Seq::empty()));
        } else {
            current.push(c);
            assert(token_views(tokens@).push(current@) =~= before.drop_last().push(
                before.last().push(c),
            ));
        }
        i += 1;
    }
    assert(chars@.take(i as int) =~= chars@);
    let ghost before = token_views(tokens@).push(current@);
    tokens.push(current);
    assert(token_views(tokens@) =~= before);
    tokens
}

/// Cuts a text into consecutive pairs of characters.
pub fn pair_chars(chars: &[char]) -> (tokens: Vec<Vec<char>>)
    ensures
        token_views(tokens@) == pairs(chars@),
{
    let mut tokens: Vec<Vec<char>> = Vec::new();
    let mut i: usize = 0;
    while i < chars.len()
        invariant
            i <= chars.len(),
            i % 2 == 0 || i == chars.len(),
            tokens@.len() == (i + 1) / 2,
            forall|j: int| 0 <= j < tokens@.len() ==> (#[trigger] tokens@[j])@ == pairs(chars@)[j],
        decreases chars.len() - i,
    {
        let mut token: Vec<char> = Vec::new();
        token.push(chars[i]);
        let mut next: usize = i + 1;
        if next < chars.len() {
            token.push(chars[next]);
            next = next + 1;
        }
        assert(token@ =~= pairs(chars@)[i as int / 2]);
        tokens.push(token);
        i = next;
    }
    assert(token_views(tokens@) =~= pairs(chars@));
    tokens
}


/// Whether a character occurs nowhere in a text.
pub open spec fn is_free_of(text: Seq<char>, c: char) -> bool {
    forall|i: int| 0 <= i < text.len() ==> #[trigger] text[i] != c
}

/// A split has at least one piece.
pub proof fn lemma_split_nonempty(text: Seq<char>, separator: char)
    ensures
        split(text, separator).len() >= 1,
    decreases text.len(),
{
    if text.len() > 0 {
        lemma_split_nonempty(text.drop_last(), separator);
    }
}

/// Characters other than the separator, written after a text, lengthen its last piece.
pub proof fn lemma_split_append(text: Seq<char>, more: Seq<char>, separator: char)
    requires
        is_free_of(more, separator),
    ensures
        split(text + more, separator) == split(text, separator).drop_last().push(
            split(text, separator).last() + more,
        ),
    decreases more.len(),
{
    lemma_split_nonempty(text, separator);
    let pieces = split(text, separator);
    if more.len() == 0 {
        assert(text + more =~= text);
        assert(pieces.last() + more =~= pieces.last());
        assert(pieces.drop_last().push(pieces.last()) =~= pieces);
    } else {
        let shorter = more.drop_last();
        assert forall|i: int| 0 <= i < shorter.len() implies #[trigger] shorter[i] != separator by {
            assert(shorter[i] == more[i]);
        }
        lemma_split_append(text, shorter, separator);
        assert((text + more).drop_last() =~= text + shorter);
        assert((text + more).last() == more.last());
        let before = split(text + shorter, separator);
        assert(before.drop_last() =~= pieces.drop_last());
        assert(before.last().push(more.last()) =~= pieces.last() + more);
    }
}

/// A text without the separator is one piece.
pub proof fn lemma_split_plain(text: Seq<char>, separator: char)
    requires
        is_free_of(text, separator),
    ensures
        split(text, separator) == seq![text],
{
    lemma_split_append(Seq::empty(), text, separator);
    assert(Seq::<char>::empty() + text =~= text);
    assert(split(Seq::empty(), separator).drop_last().push(Seq::empty() + text) =~= seq![text]);
}

/// Splitting undoes joining: words that are free of the separator, joined by it, are
/// the pieces of the joined text.
pub proof fn lemma_split_join(words: Seq<Seq<char>>, separator: char)
    requires
        words.len() >= 1,
        forall|i: int| 0 <= i < words.len() ==> is_free_of(#[trigger] words[i], separator),
    ensures
        split(join(words, seq![separator]), separator) == words,
    decreases words.len(),
{
    if words.len() == 1 {
        lemma_split_plain(words[0], separator);
        assert(seq![words[0]] =~= words);
    } else {
        let front = words.drop_last();
        assert forall|i: int| 0 <= i < front.len() implies is_free_of(
            #[trigger] front[i],
            separator,
        ) by {
            assert(front[i] == words[i]);
        }
        lemma_split_join(front, separator);
        let joined = join(front, seq![separator]);
        assert(joined + seq![separator] =~= joined.push(separator));
        assert(joined.push(separator).drop_last() =~= joined);
        assert(split(joined.push(separator), separator) == front.push(Seq::empty()));
        lemma_split_append(joined.push(separator), words.last(), separator);
        assert(Seq::<char>::empty() + words.last() =~= words.last());
        assert(front.push(Seq::empty()).drop_last().push(words.last()) =~= words);
    }
}

/// Joining undoes splitting, and the pieces of a split are free of the separator.
pub proof fn lemma_join_split(text: Seq<char>, separator: char)
    ensures
        join(split(text, separator), seq![separator]) == text,
        forall|i: int|
            0 <= i < split(text, separator).len() ==> is_free_of(
                #[trigger] split(text, separator)[i],
                separator,
            ),
    decreases text.len(),
{
    if text.len() == 0 {
    } else {
        let shorter = text.drop_last();
        lemma_join_split(shorter, separator);
        lemma_split_nonempty(shorter, separator);
        let before = split(shorter, separator);
        let pieces = split(text, separator);
        if text.last() == separator {
            assert(pieces.drop_last() =~= before);
            assert(join(pieces, seq![separator]) =~= shorter.push(separator));
            assert(shorter.push(text.last()) =~= text);
        } else {
            let grown = before.last().push(text.last());
            assert(pieces.last() == grown);
            assert(is_free_of(before.last(), separator));
            if before.len() == 1 {
                assert(join(pieces, seq![separator]) =~= shorter.push(text.last()));
            } else {
                assert(pieces.drop_last() =~= before.drop_last());
                assert(join(pieces, seq![separator]) =~= join(before, seq![separator]).push(
                    text.last(),
                ));
            }
            assert(shorter.push(text.last()) =~= text);
        }
    }
}

/// Words of two letters, written one after the other, are the pairs of what is written.
pub proof fn lemma_pairs_join(words: Seq<Seq<char>>)
    requires
        forall|i: int| 0 <= i < words.len() ==> (#[trigger] words[i]).len() == 2,
    ensures
        join(words, Seq::empty()).len() == 2 * words.len(),
        pairs(join(words, Seq::empty())) == words,
    decreases words.len(),
{
    if words.len() == 0 {
        assert(pairs(Seq::empty()) =~= words);
    } else if words.len() == 1 {
        assert(pairs(words[0]) =~= words) by {
            assert(words[0].subrange(0, 2) =~= words[0]);
        }
    } else {
        let front = words.drop_last();
        lemma_pairs_join(front);
        let joined = join(front, Seq::empty());
        let all = join(words, Seq::empty());
        assert(all =~= joined + words.last());
        assert forall|i: int| 0 <= i < words.len() implies pairs(all)[i] == words[i] by {
            if i < front.len() {
                assert(pairs(joined)[i] == front[i]);
                assert(all.subrange(2 * i, 2 * i + 2) =~= joined.subrange(2 * i, 2 * i + 2));
            } else {
                assert(all.subrange(2 * i, 2 * i + 2) =~= words.last());
            }
        }
        assert(pairs(all) =~= words);
    }
}

/// Two texts that differ at most in the case of their ASCII letters.
pub open spec fn same_but_case(a: Seq<char>, b: Seq<char>) -> bool {
    a.len() == b.len() && forall|i: int| 0 <= i < a.len() ==> lower(#[trigger] a[i]) == lower(b[i])
}

/// Two sequences of tokens that differ at most in the case of their ASCII letters.
pub open spec fn same_tokens_but_case(a: Seq<Seq<char>>, b: Seq<Seq<char>>) -> bool {
    a.len() == b.len() && forall|i: int| 0 <= i < a.len() ==> same_but_case(#[trigger] a[i], b[i])
}

/// A text and its capitalised form differ at most in case.
pub proof fn lemma_uppercase_same(text: Seq<char>)
    ensures
        same_but_case(uppercase(text), text),
{
}

/// A separator that is no letter cuts two texts that differ at most in case at the same
/// places.
pub proof fn lemma_split_same_but_case(a: Seq<char>, b: Seq<char>, separator: char)
    requires
        same_but_case(a, b),
        !('a' <= separator && separator <= 'z'),
        !('A' <= separator && separator <= 'Z'),
    ensures
        same_tokens_but_case(split(a, separator), split(b, separator)),
    decreases a.len(),
{
    if a.len() > 0 {
        assert(lower(a.last()) == lower(b.last()));
        assert forall|i: int| 0 <= i < a.drop_last().len() implies lower(
            #[trigger] a.drop_last()[i],
        ) == lower(b.drop_last()[i]) by {
            assert(lower(a[i]) == lower(b[i]));
        }
        lemma_split_same_but_case(a.drop_last(), b.drop_last(), separator);
        lemma_split_nonempty(a.drop_last(), separator);
        let before_a = split(a.drop_last(), separator);
        let before_b = split(b.drop_last(), separator);
        assert(same_but_case(before_a.last(), before_b.last()));
        assert forall|i: int| 0 <= i < split(a, separator).len() implies same_but_case(
            #[trigger] split(a, separator)[i],
            split(b, separator)[i],
        ) by {
            if i < before_a.len() - 1 {
                assert(same_but_case(before_a[i], before_b[i]));
            }
        }
    }
}

/// Two texts that differ at most in case have pairs that differ at most in case.
pub proof fn lemma_pairs_same_but_case(a: Seq<char>, b: Seq<char>)
    requires
        same_but_case(a, b),
    ensures
        same_tokens_but_case(pairs(a), pairs(b)),
{
    assert forall|i: int| 0 <= i < pairs(a).len() implies same_but_case(
        #[trigger] pairs(a)[i],
        pairs(b)[i],
    ) by {
        let x = pairs(a)[i];
        let y = pairs(b)[i];
        assert forall|j: int| 0 <= j < x.len() implies lower(#[trigger] x[j]) == lower(y[j]) by {
            assert(lower(a[2 * i + j]) == lower(b[2 * i + j]));
        }
    }
}

/// The first word of a join, and what follows it.
pub proof fn lemma_join_first(words: Seq<Seq<char>>, separator: Seq<char>)
    requires
        words.len() >= 2,
    ensures
        join(words, separator) == words[0] + separator + join(words.skip(1), separator),
    decreases words.len(),
{
    if words.len() == 2 {
        assert(join(words.drop_last(), separator) == words[0]);
        assert(join(words.skip(1), separator) == words[1]);
    } else {
        lemma_join_first(words.drop_last(), separator);
        assert(words.drop_last().skip(1) =~= words.skip(1).drop_last());
        assert(words.drop_last()[0] == words[0]);
        assert(words.skip(1).last() == words.last());
        assert(join(words, separator) =~= words[0] + separator + join(words.skip(1), separator));
    }
}

/// The length of a join of words that all have `width` characters.
pub proof fn lemma_join_len(words: Seq<Seq<char>>, separator: Seq<char>, width: nat)
    requires
        words.len() >= 1,
        forall|i: int| 0 <= i < words.len() ==> (#[trigger] words[i]).len() == width,
    ensures
        join(words, separator).len() == words.len() * width + (words.len() - 1) * separator.len(),
    decreases words.len(),
{
    let n = words.len();
    let s = separator.len();
    if n == 1 {
        assert(n * width + (n - 1) * s == width) by (nonlinear_arith)
            requires
                n == 1,
        ;
    } else {
        lemma_join_len(words.drop_last(), separator, width);
        assert(n * width + (n - 1) * s == ((n - 1) * width + (n - 2) * s) + s + width)
            by (nonlinear_arith);
    }
}

/// A character that occurs neither in the words nor in the separator does not occur
/// in their join.
pub proof fn lemma_join_free_of(words: Seq<Seq<char>>, separator: Seq<char>, c: char)
    requires
        is_free_of(separator, c),
        forall|i: int| 0 <= i < words.len() ==> is_free_of(#[trigger] words[i], c),
    ensures
        is_free_of(join(words, separator), c),
    decreases words.len(),
{
    if words.len() == 0 {
    } else if words.len() == 1 {
    } else {
        let front = words.drop_last();
        assert forall|i: int| 0 <= i < front.len() implies is_free_of(#[trigger] front[i], c) by {
            assert(front[i] == words[i]);
        }
        lemma_join_free_of(front, separator, c);
        assert(is_free_of(words.last(), c));
    }
}

} // verus!
