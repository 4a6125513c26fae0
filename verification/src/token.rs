//! The source filter: keeps the eight instruction characters of a text and
//! drops everything else.

use vstd::prelude::*;

verus! {

/// Whether `c` is one of the eight instruction characters.
pub open spec fn is_token(c: char) -> bool {
    c == '>' || c == '<' || c == '+' || c == '-' || c == '.' || c == ',' || c == '[' || c == ']'
}

/// The instruction characters of `text`, in the order in which they stand.
pub open spec fn filter_tokens(text: Seq<char>) -> Seq<char> {
    text.filter(|c: char| is_token(c))
}

/// Executable form of [`is_token`].
pub fn is_token_char(c: char) -> (b: bool)
    ensures
        b == is_token(c),
{
    c == '>' || c == '<' || c == '+' || c == '-' || c == '.' || c == ',' || c == '[' || c == ']'
}

/// Filtering a text that has grown by one character keeps the character if
/// it is an instruction, and adds nothing if it is not.
pub proof fn lemma_filter_push(text: Seq<char>, c: char)
    ensures
        filter_tokens(text.push(c)) == if is_token(c) {
            filter_tokens(text).push(c)
        } else {
            filter_tokens(text)
        },
{
    reveal(Seq::filter);
    assert(text.push(c).drop_last() =~= text);
}

/// The instruction characters of `text`, in order; every other character is
/// a comment and is dropped.
pub fn parse(text: &str) -> (res: Vec<char>)
    ensures
        res@ == filter_tokens(text@),
        forall|i: int| 0 <= i < res@.len() ==> is_token(#[trigger] res@[i]),
{
    broadcast use vstd::string::group_string_axioms;

    proof {
        lemma_filter_only_tokens(text@);
    }

    let mut res: Vec<char> = Vec::new();
    proof {
        reveal(Seq::filter);
        assert(text@.take(0) =~= Seq::<char>::empty());
    }
    for c in it: text.chars()
        invariant
            it.seq() == text@,
            res@ == filter_tokens(text@.take(it.index())),
    {
        proof {
            lemma_filter_push(text@.take(it.index()), c);
            assert(text@.take(it.index() + 1) =~= text@.take(it.index()).push(c));
        }
        if is_token_char(c) {
            res.push(c);
        }
    }
    assert(text@.take(text@.len() as int) =~= text@);
    res
}

/// The filter keeps nothing but instruction characters.
pub proof fn lemma_filter_only_tokens(text: Seq<char>)
    ensures
        forall|i: int|
            0 <= i < filter_tokens(text).len() ==> is_token(#[trigger] filter_tokens(text)[i]),
{
    let pred = |c: char| is_token(c);
    assert forall|i: int| 0 <= i < filter_tokens(text).len() implies is_token(
        #[trigger] filter_tokens(text)[i],
    ) by {
        text.lemma_filter_pred(pred, i);
    }
}

/// The filter keeps the order: what it keeps of two texts put together is
/// what it keeps of the first, followed by what it keeps of the second.
pub proof fn lemma_filter_concat(a: Seq<char>, b: Seq<char>)
    ensures
        filter_tokens(a + b) == filter_tokens(a) + filter_tokens(b),
{
    Seq::filter_distributes_over_add(a, b, |c: char| is_token(c));
}

/// The filter keeps every instruction character, and keeps them where they
/// stand relative to each other: there are places in the text, in rising
/// order, at which the kept characters stand one by one, and every place at
/// which an instruction character stands is among them.
pub proof fn lemma_filter_places(text: Seq<char>) -> (places: Seq<int>)
    ensures
        places.len() == filter_tokens(text).len(),
        forall|i: int|
            0 <= i < places.len() ==> 0 <= #[trigger] places[i] < text.len() && text[places[i]]
                == filter_tokens(text)[i],
        forall|i: int, j: int|
            0 <= i < j < places.len() ==> #[trigger] places[i] < #[trigger] places[j],
        forall|k: int|
            0 <= k < text.len() && is_token(#[trigger] text[k]) ==> places.contains(k),
    decreases text.len(),
{
    if text.len() == 0 {
        reveal(Seq::filter);
        Seq::empty()
    } else {
        let most = text.drop_last();
        let last = text.len() - 1;
        let before = lemma_filter_places(most);
        lemma_filter_push(most, text.last());
        assert(most.push(text.last()) =~= text);
        let places = if is_token(text.last()) {
            before.push(last)
        } else {
            before
        };
        assert forall|k: int|
            0 <= k < text.len() && is_token(#[trigger] text[k]) implies places.contains(k) by {
            if k < last {
                assert(most[k] == text[k]);
                let at = choose|at: int| 0 <= at < before.len() && before[at] == k;
                assert(places[at] == k);
            } else {
                assert(places[places.len() - 1] == k);
            }
        }
        places
    }
}

/// The filter changes nothing in a text that holds instruction characters
/// only.
pub proof fn lemma_filter_keeps_tokens(text: Seq<char>)
    requires
        forall|i: int| 0 <= i < text.len() ==> is_token(#[trigger] text[i]),
    ensures
        filter_tokens(text) == text,
    decreases text.len(),
{
    if text.len() > 0 {
        lemma_filter_keeps_tokens(text.drop_last());
        lemma_filter_push(text.drop_last(), text.last());
        assert(text.drop_last().push(text.last()) =~= text);
    } else {
        reveal(Seq::filter);
    }
}

/// Filtering twice is filtering once.
pub proof fn lemma_filter_idempotent(text: Seq<char>)
    ensures
        filter_tokens(filter_tokens(text)) == filter_tokens(text),
{
    lemma_filter_only_tokens(text);
    lemma_filter_keeps_tokens(filter_tokens(text));
}

} // verus!
