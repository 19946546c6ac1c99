//! Normalises text into word tokens made of the letters `a`-`z`.
use vstd::prelude::*;

verus! {

/// ASCII case folding: `A`-`Z` become `a`-`z`, every other character stays.
pub open spec fn fold_case(c: char) -> char {
    if 'A' <= c && c <= 'Z' {
        ((c as u32) + 32) as char
    } else {
        c
    }
}

pub open spec fn is_letter(c: char) -> bool {
    'a' <= c && c <= 'z'
}

/// The characters of `s`, case-folded, with all but letters and spaces dropped.
pub open spec fn clean(s: Seq<char>) -> Seq<char>
    decreases s.len(),
{
    if s.len() == 0 {
        s
    } else {
        let c = fold_case(s.last());
        if is_letter(c) || c == ' ' {
            clean(s.drop_last()).push(c)
        } else {
            clean(s.drop_last())
        }
    }
}

/// Splitting `s` on spaces, read left to right: the words completed so far,
/// and the word under way.
pub open spec fn split_state(s: Seq<char>) -> (Seq<Seq<char>>, Seq<char>)
    decreases s.len(),
{
    if s.len() == 0 {
        (Seq::empty(), Seq::empty())
    } else {
        let (done, cur) = split_state(s.drop_last());
        if s.last() == ' ' {
            if cur.len() > 0 {
                (done.push(cur), Seq::empty())
            } else {
                (done, Seq::empty())
            }
        } else {
            (done, cur.push(s.last()))
        }
    }
}

/// The maximal runs of non-space characters of `s`, in order.
pub open spec fn words(s: Seq<char>) -> Seq<Seq<char>> {
    let (done, cur) = split_state(s);
    if cur.len() > 0 {
        done.push(cur)
    } else {
        done
    }
}

/// The tokens of a text.
pub open spec fn tokens(s: Seq<char>) -> Seq<Seq<char>> {
    words(clean(s))
}

/// A token: a non-empty run of the letters `a`-`z`.
pub open spec fn is_token(w: Seq<char>) -> bool {
    w.len() > 0 && forall|i: int| 0 <= i < w.len() ==> is_letter(#[trigger] w[i])
}

/// The words of `ws` with one space between each two.
pub open spec fn join(ws: Seq<Seq<char>>) -> Seq<char>
    decreases ws.len(),
{
    if ws.len() == 0 {
        Seq::empty()
    } else if ws.len() == 1 {
        ws[0]
    } else {
        join(ws.drop_last()) + seq![' '] + ws.last()
    }
}

/// Every character of `s` is a letter or a space.
pub open spec fn letters_and_spaces(s: Seq<char>) -> bool {
    forall|i: int| 0 <= i < s.len() ==> is_letter(#[trigger] s[i]) || s[i] == ' '
}

proof fn lemma_clean_alphabet(s: Seq<char>)
    ensures
        letters_and_spaces(clean(s)),
    decreases s.len(),
{
    if s.len() > 0 {
        lemma_clean_alphabet(s.drop_last());
    }
}

proof fn lemma_clean_keeps(s: Seq<char>)
    requires
        letters_and_spaces(s),
    ensures
        clean(s) == s,
    decreases s.len(),
{
    if s.len() > 0 {
        let t = s.drop_last();
        assert(letters_and_spaces(t)) by {
            assert forall|i: int| 0 <= i < t.len() implies is_letter(#[trigger] t[i]) || t[i] == ' ' by {
                assert(t[i] == s[i]);
            }
        }
        lemma_clean_keeps(t);
        assert(s.last() == s[s.len() - 1]);
        assert(t.push(s.last()) =~= s);
    }
}

proof fn lemma_split_state_tokens(s: Seq<char>)
    requires
        letters_and_spaces(s),
    ensures
        forall|i: int| 0 <= i < split_state(s).0.len() ==> is_token(#[trigger] split_state(s).0[i]),
        forall|i: int| 0 <= i < split_state(s).1.len() ==> is_letter(#[trigger] split_state(s).1[i]),
    decreases s.len(),
{
    if s.len() > 0 {
        let t = s.drop_last();
        assert(letters_and_spaces(t)) by {
            assert forall|i: int| 0 <= i < t.len() implies is_letter(#[trigger] t[i]) || t[i] == ' ' by {
                assert(t[i] == s[i]);
            }
        }
        lemma_split_state_tokens(t);
        assert(s.last() == s[s.len() - 1]);
        let (done, cur) = split_state(t);
        if s.last() == ' ' {
            if cur.len() > 0 {
                assert(is_token(cur));
                assert forall|i: int| 0 <= i < done.push(cur).len() implies is_token(
                    #[trigger] done.push(cur)[i],
                ) by {
                    if i < done.len() {
                        assert(done.push(cur)[i] == done[i]);
                    }
                }
            }
        } else {
            assert forall|i: int| 0 <= i < cur.push(s.last()).len() implies is_letter(
                #[trigger] cur.push(s.last())[i],
            ) by {
                if i < cur.len() {
                    assert(cur.push(s.last())[i] == cur[i]);
                }
            }
        }
    }
}

/// Every token that [`split`] gives is a non-empty run of `a`-`z`.
pub proof fn lemma_tokens_are_words(s: Seq<char>)
    ensures
        forall|i: int| 0 <= i < tokens(s).len() ==> is_token(#[trigger] tokens(s)[i]),
{
    lemma_clean_alphabet(s);
    lemma_split_state_tokens(clean(s));
}

proof fn lemma_join_alphabet(ws: Seq<Seq<char>>)
    requires
        forall|i: int| 0 <= i < ws.len() ==> is_token(#[trigger] ws[i]),
    ensures
        letters_and_spaces(join(ws)),
    decreases ws.len(),
{
    if ws.len() > 1 {
        let front = ws.drop_last();
        assert forall|i: int| 0 <= i < front.len() implies is_token(#[trigger] front[i]) by {
            assert(front[i] == ws[i]);
        }
        lemma_join_alphabet(front);
        let j = join(ws);
        let a = join(front);
        let w = ws.last();
        assert(is_token(ws[ws.len() - 1]));
        assert forall|i: int| 0 <= i < j.len() implies is_letter(#[trigger] j[i]) || j[i] == ' ' by {
            if i < a.len() {
                assert(j[i] == a[i]);
            } else if i > a.len() {
                assert(j[i] == w[i - a.len() - 1]);
            }
        }
    } else if ws.len() == 1 {
        assert(is_token(ws[0]));
    }
}

proof fn lemma_split_state_append_word(x: Seq<char>, y: Seq<char>)
    requires
        forall|i: int| 0 <= i < y.len() ==> is_letter(#[trigger] y[i]),
    ensures
        split_state(x + y) == (split_state(x).0, split_state(x).1 + y),
    decreases y.len(),
{
    if y.len() == 0 {
        assert(x + y =~= x);
        assert(split_state(x).1 + y =~= split_state(x).1);
    } else {
        let z = y.drop_last();
        assert forall|i: int| 0 <= i < z.len() implies is_letter(#[trigger] z[i]) by {
            assert(z[i] == y[i]);
        }
        lemma_split_state_append_word(x, z);
        assert((x + y).drop_last() =~= x + z);
        assert((x + y).last() == y[y.len() - 1]);
        assert((split_state(x).1 + z).push(y.last()) =~= split_state(x).1 + y);
    }
}

proof fn lemma_split_state_join(ws: Seq<Seq<char>>)
    requires
        ws.len() > 0,
        forall|i: int| 0 <= i < ws.len() ==> is_token(#[trigger] ws[i]),
    ensures
        split_state(join(ws)) == (ws.drop_last(), ws.last()),
    decreases ws.len(),
{
    let w = ws.last();
    assert(is_token(ws[ws.len() - 1]));
    if ws.len() == 1 {
        lemma_split_state_append_word(Seq::empty(), w);
        assert(Seq::<char>::empty() + w =~= w);
        assert(Seq::<char>::empty() + w =~= w);
        assert(ws.drop_last() =~= Seq::<Seq<char>>::empty());
    } else {
        let front = ws.drop_last();
        assert forall|i: int| 0 <= i < front.len() implies is_token(#[trigger] front[i]) by {
            assert(front[i] == ws[i]);
        }
        lemma_split_state_join(front);
        let a = join(front);
        let sp = a + seq![' '];
        assert(sp.drop_last() =~= a);
        assert(front.last() == front[front.len() - 1]);
        assert(split_state(sp) == (front.drop_last().push(front.last()), Seq::<char>::empty()));
        assert(front.drop_last().push(front.last()) =~= front);
        lemma_split_state_append_word(sp, w);
        assert(Seq::<char>::empty() + w =~= w);
    }
}

/// Tokenizing the tokens of a text, joined by spaces, gives them back.
pub proof fn lemma_split_idempotent(s: Seq<char>)
    ensures
        tokens(join(tokens(s))) == tokens(s),
{
    let ws = tokens(s);
    lemma_tokens_are_words(s);
    lemma_join_alphabet(ws);
    lemma_clean_keeps(join(ws));
    if ws.len() == 0 {
        assert(split_state(join(ws)) == (Seq::<Seq<char>>::empty(), Seq::<char>::empty()));
    } else {
        lemma_split_state_join(ws);
        assert(is_token(ws[ws.len() - 1]));
        assert(ws.drop_last().push(ws.last()) =~= ws);
    }
}

fn fold_char(c: char) -> (r: char)
    ensures
        r == fold_case(c),
{
    if 'A' <= c && c <= 'Z' {
        ((c as u8) + 32) as char
    } else {
        c
    }
}

/// Relies on `String::push`: appends one character to the string.
#[verifier::external_body]
fn push_char(s: &mut String, c: char)
    ensures
        final(s)@ == old(s)@.push(c),
{
    s.push(c);
}

/// Splits a text into tokens: case-folds `A`-`Z`, drops every character but
/// the letters `a`-`z` and the space, and splits on runs of spaces.
pub fn split(input: &str) -> (out: Vec<String>)
    ensures
        out@.map_values(|w: String| w@) == tokens(input@),
        forall|i: int| 0 <= i < out@.len() ==> is_token(#[trigger] out@[i]@),
{
    let mut out: Vec<String> = Vec::new();
    let mut cur = String::new();
    let mut in_word = false;
    for ch in it: input.chars()
        invariant
            it.seq() == input@,
            in_word == (cur@.len() > 0),
            (out@.map_values(|w: String| w@), cur@) == split_state(
                clean(input@.take(it.index() as int)),
            ),
    {
        let ghost i = it.index() as int;
        let c = fold_char(ch);
        proof {
            assert(input@.take(i + 1).drop_last() =~= input@.take(i));
        }
        if c == ' ' {
            if in_word {
                let ghost done = split_state(clean(input@.take(i))).0;
                out.push(cur);
                cur = String::new();
                in_word = false;
                assert(out@.map_values(|w: String| w@) =~= done.push(
                    split_state(clean(input@.take(i))).1,
                ));
            }
        } else if 'a' <= c && c <= 'z' {
            push_char(&mut cur, c);
            in_word = true;
        }
        proof {
            let s1 = clean(input@.take(i + 1));
            if c == ' ' || ('a' <= c && c <= 'z') {
                assert(s1.drop_last() =~= clean(input@.take(i)));
            }
        }
    }
    assert(input@.take(input@.len() as int) =~= input@);
    if in_word {
        out.push(cur);
    }
    assert(out@.map_values(|w: String| w@) =~= tokens(input@));
    proof {
        lemma_tokens_are_words(input@);
        assert forall|i: int| 0 <= i < out@.len() implies is_token(#[trigger] out@[i]@) by {
            assert(out@.map_values(|w: String| w@)[i] == out@[i]@);
        }
    }
    out
}

} // verus!
