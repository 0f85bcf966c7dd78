//! Assembling passwords: words drawn uniformly at random from a word
//! list, joined with a separator.

use crate::rng::draw_index;
use crate::rng::new_rng;
use crate::wordlist::lemma_split_on_char_nonempty;
use crate::wordlist::split_on_char;
use vstd::prelude::*;
use vstd::string::StrSliceExecFns;
use vstd::string::StringExecFns;

verus! {

/// The words of `ws` in order, with `sep` between consecutive words: no
/// separator before the first word or after the last, and no words at all
/// give the empty sequence.
pub open spec fn join_with(ws: Seq<Seq<char>>, sep: Seq<char>) -> Seq<char>
    decreases ws.len(),
{
    if ws.len() == 0 {
        Seq::<char>::empty()
    } else if ws.len() == 1 {
        ws[0]
    } else {
        join_with(ws.drop_last(), sep) + sep + ws.last()
    }
}

/// What a generated password is: some sequence of `count` words, each
/// taken from `words`, joined with `sep`.  Which words were drawn is not
/// pinned down, because the draws are random.
pub open spec fn is_password_of(
    p: Seq<char>,
    words: Seq<Seq<char>>,
    count: nat,
    sep: Seq<char>,
) -> bool {
    exists|chosen: Seq<Seq<char>>|
        #![trigger join_with(chosen, sep)]
        {
            &&& chosen.len() == count
            &&& (forall|k: int| 0 <= k < chosen.len() ==> words.contains(#[trigger] chosen[k]))
            &&& p == join_with(chosen, sep)
        }
}

/// Generation fails only for want of words to draw from.
#[derive(Clone, Copy, Debug, PartialEq, Eq, Structural)]
pub enum PasswordError {
    EmptyWordList,
}

/// Join the given words, in order, with the separator between consecutive
/// words.
pub fn join(words: &Vec<String>, separator: &str) -> (joined: String)
    ensures
        joined@ == join_with(words.deep_view(), separator@),
{
    let mut joined = String::new();
    let mut i: usize = 0;
    proof {
        assert(words.deep_view().take(0) =~= Seq::<Seq<char>>::empty());
    }
    while i < words.len()
        invariant
            i <= words.len(),
            joined@ == join_with(words.deep_view().take(i as int), separator@),
        decreases words.len() - i,
    {
        proof {
            assert(words.deep_view().take(i + 1).drop_last() =~= words.deep_view().take(i as int));
        }
        if i > 0 {
            joined.append(separator);
        }
        joined.append(words[i].as_str());
        proof {
            let t1 = words.deep_view().take(i + 1);
            assert(t1.last() == words.deep_view()[i as int]);
            if i == 0 {
                assert(join_with(t1, separator@) == t1[0]);
                assert(joined@ =~= t1[0]);
            }
        }
        i += 1;
    }
    proof {
        assert(words.deep_view().take(words@.len() as int) =~= words.deep_view());
    }
    joined
}

/// Generate one password: draw `word_count` words from `wordlist`
/// independently and uniformly at random, with replacement, and join them
/// in the order drawn with `separator`.  Fails exactly when `wordlist` is
/// empty; zero words give the empty password.
pub fn generate(wordlist: &Vec<String>, word_count: u8, separator: &str) -> (result: Result<
    String,
    PasswordError,
>)
    ensures
        result is Ok <==> wordlist@.len() > 0,
        result matches Ok(p) ==> is_password_of(
            p@,
            wordlist.deep_view(),
            word_count as nat,
            separator@,
        ),
        result matches Ok(p) ==> (word_count == 0 ==> p@ == Seq::<char>::empty()),
        result matches Err(e) ==> e == PasswordError::EmptyWordList,
{
    if wordlist.len() == 0 {
        return Err(PasswordError::EmptyWordList);
    }
    let mut rng = new_rng();
    let mut picked: Vec<String> = Vec::new();
    let mut k: usize = 0;
    while k < word_count as usize
        invariant
            wordlist@.len() > 0,
            k <= word_count as usize,
            picked.deep_view().len() == k,
            forall|j: int|
                0 <= j < k ==> wordlist.deep_view().contains(#[trigger] picked.deep_view()[j]),
        decreases word_count as int - k,
    {
        let idx = draw_index(&mut rng, wordlist.len());
        let ghost prev = picked.deep_view();
        picked.push(wordlist[idx].clone());
        proof {
            assert(picked.deep_view() =~= prev.push(wordlist.deep_view()[idx as int]));
        }
        k += 1;
    }
    let joined = join(&picked, separator);
    proof {
        let chosen = picked.deep_view();
        assert(joined@ == join_with(chosen, separator@));
        if word_count == 0 {
            assert(chosen =~= Seq::<Seq<char>>::empty());
        }
    }
    Ok(joined)
}

/// Generate a batch of `number_passwords` passwords, each by an
/// independent run of `generate`.  Fails exactly when at least one
/// password is asked for and `wordlist` is empty.
pub fn generate_batch(
    wordlist: &Vec<String>,
    number_passwords: u16,
    word_count: u8,
    separator: &str,
) -> (result: Result<Vec<String>, PasswordError>)
    ensures
        result is Ok <==> (number_passwords == 0 || wordlist@.len() > 0),
        result matches Ok(pws) ==> pws.deep_view().len() == number_passwords,
        result matches Ok(pws) ==> forall|j: int|
            0 <= j < pws.deep_view().len() ==> is_password_of(
                #[trigger] pws.deep_view()[j],
                wordlist.deep_view(),
                word_count as nat,
                separator@,
            ),
        result matches Err(e) ==> e == PasswordError::EmptyWordList,
{
    let mut passwords: Vec<String> = Vec::new();
    let mut made: usize = 0;
    while made < number_passwords as usize
        invariant
            made <= number_passwords as usize,
            made > 0 ==> wordlist@.len() > 0,
            passwords.deep_view().len() == made,
            forall|j: int|
                0 <= j < made ==> is_password_of(
                    #[trigger] passwords.deep_view()[j],
                    wordlist.deep_view(),
                    word_count as nat,
                    separator@,
                ),
        decreases number_passwords as int - made,
    {
        let ghost prev = passwords.deep_view();
        match generate(wordlist, word_count, separator) {
            Ok(p) => {
                passwords.push(p);
                proof {
                    assert(passwords.deep_view() =~= prev.push(passwords.deep_view().last()));
                }
            },
            Err(e) => {
                return Err(e);
            },
        }
        made += 1;
    }
    Ok(passwords)
}

/// The number of occurrences of `c` in `s`.
pub open spec fn count_char(s: Seq<char>, c: char) -> nat
    decreases s.len(),
{
    if s.len() == 0 {
        0
    } else {
        count_char(s.drop_last(), c) + (if s.last() == c {
            1nat
        } else {
            0nat
        })
    }
}

pub proof fn lemma_count_char_add(a: Seq<char>, b: Seq<char>, c: char)
    ensures
        count_char(a + b, c) == count_char(a, c) + count_char(b, c),
    decreases b.len(),
{
    if b.len() == 0 {
        assert(a + b =~= a);
    } else {
        assert((a + b).drop_last() =~= a + b.drop_last());
        lemma_count_char_add(a, b.drop_last(), c);
    }
}

pub proof fn lemma_count_char_absent(s: Seq<char>, c: char)
    requires
        !s.contains(c),
    ensures
        count_char(s, c) == 0,
    decreases s.len(),
{
    if s.len() > 0 {
        assert(!s.drop_last().contains(c)) by {
            if s.drop_last().contains(c) {
                let i = choose|i: int|
                    0 <= i < s.drop_last().len() && s.drop_last()[i] == c;
                assert(s[i] == c);
            }
        }
        assert(s[s.len() - 1] != c);
        lemma_count_char_absent(s.drop_last(), c);
    }
}

/// Joining `N >= 1` words with a one-character separator that occurs in
/// no word puts exactly one separator between consecutive words: the
/// result holds exactly `N - 1` separator characters.
pub proof fn lemma_join_separator_count(ws: Seq<Seq<char>>, c: char)
    requires
        ws.len() > 0,
        forall|k: int| 0 <= k < ws.len() ==> !(#[trigger] ws[k]).contains(c),
    ensures
        count_char(join_with(ws, seq![c]), c) == ws.len() - 1,
    decreases ws.len(),
{
    if ws.len() == 1 {
        lemma_count_char_absent(ws[0], c);
    } else {
        let dl = ws.drop_last();
        assert forall|k: int| 0 <= k < dl.len() implies !(#[trigger] dl[k]).contains(c) by {
            assert(dl[k] == ws[k]);
        }
        lemma_join_separator_count(dl, c);
        let j = join_with(dl, seq![c]);
        lemma_count_char_add(j, seq![c], c);
        lemma_count_char_add(j + seq![c], ws.last(), c);
        lemma_count_char_absent(ws.last(), c);
        assert(count_char(seq![c], c) == 1) by {
            assert(seq![c].drop_last() =~= Seq::<char>::empty());
            assert(count_char(Seq::<char>::empty(), c) == 0);
            assert(seq![c].last() == c);
        }
    }
}

/// Appending separator-free text extends the last piece of a split and
/// adds no piece.
pub proof fn lemma_split_append_no_sep(a: Seq<char>, b: Seq<char>, c: char)
    requires
        !b.contains(c),
    ensures
        split_on_char(a + b, c) == split_on_char(a, c).update(
            split_on_char(a, c).len() - 1,
            split_on_char(a, c).last() + b,
        ),
    decreases b.len(),
{
    lemma_split_on_char_nonempty(a, c);
    let pa = split_on_char(a, c);
    if b.len() == 0 {
        assert(a + b =~= a);
        assert(pa.last() + b =~= pa.last());
        assert(pa.update(pa.len() - 1, pa.last() + b) =~= pa);
    } else {
        assert(!b.drop_last().contains(c)) by {
            if b.drop_last().contains(c) {
                let i = choose|i: int|
                    0 <= i < b.drop_last().len() && b.drop_last()[i] == c;
                assert(b[i] == c);
            }
        }
        assert(b[b.len() - 1] != c);
        lemma_split_append_no_sep(a, b.drop_last(), c);
        assert((a + b).drop_last() =~= a + b.drop_last());
        let p1 = split_on_char(a + b.drop_last(), c);
        assert(p1.last() == pa.last() + b.drop_last());
        assert((pa.last() + b.drop_last()).push(b.last()) =~= pa.last() + b);
        assert(split_on_char(a + b, c) == p1.update(p1.len() - 1, p1.last().push(b.last())));
        assert(p1.update(p1.len() - 1, p1.last().push(b.last())) =~= pa.update(
            pa.len() - 1,
            pa.last() + b,
        ));
    }
}

/// Joining `N >= 1` words with a one-character separator that occurs in
/// no word and cutting the result at that character gives the words back,
/// in order.
pub proof fn lemma_join_split_round_trip(ws: Seq<Seq<char>>, c: char)
    requires
        ws.len() > 0,
        forall|k: int| 0 <= k < ws.len() ==> !(#[trigger] ws[k]).contains(c),
    ensures
        split_on_char(join_with(ws, seq![c]), c) == ws,
    decreases ws.len(),
{
    if ws.len() == 1 {
        lemma_split_append_no_sep(Seq::<char>::empty(), ws[0], c);
        assert(split_on_char(Seq::<char>::empty(), c) =~= seq![Seq::<char>::empty()]);
        assert(Seq::<char>::empty() + ws[0] =~= ws[0]);
        assert(seq![Seq::<char>::empty()].update(0, ws[0]) =~= ws);
    } else {
        let dl = ws.drop_last();
        assert forall|k: int| 0 <= k < dl.len() implies !(#[trigger] dl[k]).contains(c) by {
            assert(dl[k] == ws[k]);
        }
        lemma_join_split_round_trip(dl, c);
        let j = join_with(dl, seq![c]);
        assert(j + seq![c] =~= j.push(c));
        assert(j.push(c).drop_last() =~= j);
        assert(split_on_char(j.push(c), c) == split_on_char(j, c).push(Seq::<char>::empty()));
        lemma_split_append_no_sep(j.push(c), ws.last(), c);
        let pm = split_on_char(j.push(c), c);
        assert(pm =~= dl.push(Seq::<char>::empty()));
        assert(Seq::<char>::empty() + ws.last() =~= ws.last());
        assert(join_with(ws, seq![c]) =~= j.push(c) + ws.last());
        assert(pm.update(pm.len() - 1, pm.last() + ws.last()) =~= ws);
    }
}

/// A password of `count >= 1` words drawn from `words`, joined with a
/// one-character separator that occurs in no word of `words`, cuts at
/// that character into exactly `count` segments, each a word of `words`,
/// and carries exactly `count - 1` separator characters.
pub proof fn lemma_password_segments(p: Seq<char>, words: Seq<Seq<char>>, count: nat, c: char)
    requires
        is_password_of(p, words, count, seq![c]),
        count >= 1,
        forall|k: int| 0 <= k < words.len() ==> !(#[trigger] words[k]).contains(c),
    ensures
        split_on_char(p, c).len() == count,
        forall|j: int| 0 <= j < count ==> words.contains(#[trigger] split_on_char(p, c)[j]),
        count_char(p, c) == count - 1,
{
    let chosen = choose|chosen: Seq<Seq<char>>|
        #![trigger join_with(chosen, seq![c])]
        {
            &&& chosen.len() == count
            &&& (forall|k: int| 0 <= k < chosen.len() ==> words.contains(#[trigger] chosen[k]))
            &&& p == join_with(chosen, seq![c])
        };
    assert forall|k: int| 0 <= k < chosen.len() implies !(#[trigger] chosen[k]).contains(c) by {
        assert(words.contains(chosen[k]));
        let i = choose|i: int| 0 <= i < words.len() && words[i] == chosen[k];
        assert(!words[i].contains(c));
    }
    lemma_join_split_round_trip(chosen, c);
    lemma_join_separator_count(chosen, c);
}

} // verus!
