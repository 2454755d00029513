//! Word-list preparation: whitespace splitting, quote line handling, and the
//! random augmentation of generated word lists.
//!
//! Randomness comes from the `rand` crate behind trusted wrappers; everything
//! a wrapper returns is taken as an arbitrary value of its stated range, and
//! the surrounding logic is verified for every such value.

use rand::Rng;
use vstd::prelude::*;

use crate::config::Config;
use crate::strings::{chars_vec, copy_chars, string_from_chars};

verus! {

/// Whether a scalar value has the Unicode `White_Space` property.
pub uninterp spec fn is_space(c: char) -> bool;

/// Relies on `char::is_whitespace`: the Unicode `White_Space` property,
/// which depends on the character alone. Within ASCII, exactly the six code
/// points 9–13 (tab, line feed, vertical tab, form feed, carriage return)
/// and 32 (blank) have the property — so letters, digits and punctuation do
/// not.
#[verifier::external_body]
pub(crate) fn char_is_space(c: char) -> (r: bool)
    ensures
        r == is_space(c),
        (c as u32) < 128 ==> (r <==> (c == ' ' || c == '\t' || c == '\n' || c == '\r' || c
            as u32 == 11 || c as u32 == 12)),
{
    c.is_whitespace()
}

/// The models of a list of char vectors, in order.
pub open spec fn chars_list_view(s: Seq<Vec<char>>) -> Seq<Seq<char>> {
    s.map_values(|v: Vec<char>| v@)
}

/// The models of a list of strings, in order.
pub open spec fn strs_view(s: Seq<String>) -> Seq<Seq<char>> {
    s.map_values(|v: String| v@)
}

// ---------------------------------------------------------------------------
// Whitespace splitting.
// ---------------------------------------------------------------------------
/// Scanning state: the words already closed, and the word being read.
#[verifier::ext_equal]
pub struct SplitAcc {
    pub done: Seq<Seq<char>>,
    pub cur: Seq<char>,
}

/// Scan one scalar value: whitespace closes the current word (if any),
/// anything else extends it.
pub open spec fn split_step(acc: SplitAcc, c: char) -> SplitAcc {
    if is_space(c) {
        if acc.cur.len() > 0 {
            SplitAcc { done: acc.done.push(acc.cur), cur: Seq::empty() }
        } else {
            acc
        }
    } else {
        SplitAcc { cur: acc.cur.push(c), ..acc }
    }
}

/// Scan a whole sequence.
pub open spec fn split_fold(s: Seq<char>, acc: SplitAcc) -> SplitAcc
    decreases s.len(),
{
    if s.len() == 0 {
        acc
    } else {
        split_step(split_fold(s.drop_last(), acc), s.last())
    }
}

/// The whitespace-separated words of a sequence, in order. None of them is
/// empty: see `lemma_split_words_nonempty`.
pub open spec fn split_ws(s: Seq<char>) -> Seq<Seq<char>> {
    let a = split_fold(s, SplitAcc { done: Seq::empty(), cur: Seq::empty() });
    if a.cur.len() > 0 {
        a.done.push(a.cur)
    } else {
        a.done
    }
}

/// Scanning keeps every closed word nonempty.
proof fn lemma_split_fold_nonempty(s: Seq<char>, acc: SplitAcc)
    requires
        forall|i: int| 0 <= i < acc.done.len() ==> (#[trigger] acc.done[i]).len() > 0,
    ensures
        forall|i: int|
            0 <= i < split_fold(s, acc).done.len() ==> (#[trigger] split_fold(s, acc).done[
                i
            ]).len() > 0,
    decreases s.len(),
{
    if s.len() > 0 {
        lemma_split_fold_nonempty(s.drop_last(), acc);
        let prev = split_fold(s.drop_last(), acc);
        let post = split_fold(s, acc);
        assert forall|i: int| 0 <= i < post.done.len() implies (#[trigger] post.done[i]).len()
            > 0 by {
            if is_space(s.last()) && prev.cur.len() > 0 {
                if i < prev.done.len() {
                    assert(post.done[i] == prev.done[i]);
                } else {
                    assert(post.done[i] == prev.cur);
                }
            } else {
                assert(post.done == prev.done);
            }
        }
    }
}

/// Splitting at whitespace yields no empty word.
pub proof fn lemma_split_words_nonempty(s: Seq<char>)
    ensures
        forall|i: int| 0 <= i < split_ws(s).len() ==> (#[trigger] split_ws(s)[i]).len() > 0,
{
    lemma_split_fold_nonempty(s, SplitAcc { done: Seq::empty(), cur: Seq::empty() });
}

/// Split a char vector at whitespace.
pub fn split_ws_exec(s: &Vec<char>) -> (r: Vec<Vec<char>>)
    ensures
        chars_list_view(r@) == split_ws(s@),
{
    let mut done: Vec<Vec<char>> = Vec::new();
    let mut cur: Vec<char> = Vec::new();
    let mut i: usize = 0;
    proof {
        assert(s@.take(0) =~= Seq::<char>::empty());
        assert(chars_list_view(done@) =~= Seq::<Seq<char>>::empty());
    }
    while i < s.len()
        invariant
            i <= s@.len(),
            ({
                let a = split_fold(s@.take(i as int), SplitAcc {
                    done: Seq::empty(),
                    cur: Seq::empty(),
                });
                chars_list_view(done@) == a.done && cur@ == a.cur
            }),
        decreases s@.len() - i,
    {
        let ghost prev_done = done@;
        proof {
            assert(s@.take(i + 1).drop_last() =~= s@.take(i as int));
            assert(s@.take(i + 1).last() == s@[i as int]);
        }
        let c = s[i];
        if char_is_space(c) {
            if cur.len() > 0 {
                done.push(cur);
                cur = Vec::new();
                proof {
                    assert(done@.drop_last() =~= prev_done);
                    crate::generator::lemma_chars_list_view_push(done@);
                }
            }
        } else {
            cur.push(c);
        }
        i = i + 1;
    }
    proof {
        assert(s@.take(s@.len() as int) =~= s@);
    }
    if cur.len() > 0 {
        let ghost prev_done = done@;
        done.push(cur);
        proof {
            assert(done@.drop_last() =~= prev_done);
            crate::generator::lemma_chars_list_view_push(done@);
        }
    }
    done
}

/// Viewing a non-empty list of char vectors is viewing all but the last,
/// then the last.
pub proof fn lemma_chars_list_view_push(s: Seq<Vec<char>>)
    requires
        s.len() > 0,
    ensures
        chars_list_view(s) == chars_list_view(s.drop_last()).push(s.last()@),
{
    assert forall|k: int| 0 <= k < s.len() implies chars_list_view(s)[k] == chars_list_view(
        s.drop_last(),
    ).push(s.last()@)[k] by {
        assert(chars_list_view(s)[k] == s[k]@);
        if k < s.len() - 1 {
            assert(chars_list_view(s.drop_last())[k] == s.drop_last()[k]@);
        }
    }
    assert(chars_list_view(s) =~= chars_list_view(s.drop_last()).push(s.last()@));
}

/// Viewing a non-empty list of strings is viewing all but the last, then the
/// last.
pub proof fn lemma_strs_view_push(s: Seq<String>)
    requires
        s.len() > 0,
    ensures
        strs_view(s) == strs_view(s.drop_last()).push(s.last()@),
{
    assert forall|k: int| 0 <= k < s.len() implies strs_view(s)[k] == strs_view(
        s.drop_last(),
    ).push(s.last()@)[k] by {
        assert(strs_view(s)[k] == s[k]@);
        if k < s.len() - 1 {
            assert(strs_view(s.drop_last())[k] == s.drop_last()[k]@);
        }
    }
    assert(strs_view(s) =~= strs_view(s.drop_last()).push(s.last()@));
}

// ---------------------------------------------------------------------------
// Quote lines.
// ---------------------------------------------------------------------------
/// A line's words; on every line but the last, the line break is kept as a
/// newline sentinel on the line's last word.
pub open spec fn line_words(line: Seq<char>, is_last: bool) -> Seq<Seq<char>> {
    let ws = split_ws(line);
    if ws.len() > 0 && !is_last {
        ws.update(ws.len() - 1, ws.last().push('\n'))
    } else {
        ws
    }
}

/// The words of all lines but the last.
pub open spec fn mid_lines(lines: Seq<Seq<char>>) -> Seq<Seq<char>>
    decreases lines.len(),
{
    if lines.len() == 0 {
        Seq::empty()
    } else {
        mid_lines(lines.drop_last()) + line_words(lines.last(), false)
    }
}

/// The word list of a quote: every line split at whitespace, with a newline
/// sentinel ending each line but the last.
pub open spec fn split_lines_spec(lines: Seq<Seq<char>>) -> Seq<Seq<char>> {
    if lines.len() == 0 {
        Seq::empty()
    } else {
        mid_lines(lines.drop_last()) + line_words(lines.last(), true)
    }
}

/// Turn quote lines into the session's word list, marking line breaks with a
/// trailing newline sentinel on each line's last word (except the last
/// line's).
pub fn split_lines(lines: Vec<String>) -> (r: Vec<String>)
    ensures
        strs_view(r@) == split_lines_spec(strs_view(lines@)),
{
    let ghost lv = strs_view(lines@);
    let mut out: Vec<String> = Vec::new();
    let mut i: usize = 0;
    proof {
        assert(lv.take(0) =~= Seq::<Seq<char>>::empty());
        assert(strs_view(out@) =~= Seq::<Seq<char>>::empty());
    }
    while i < lines.len()
        invariant
            i <= lines@.len(),
            lv == strs_view(lines@),
            strs_view(out@) == (if i < lines@.len() {
                mid_lines(lv.take(i as int))
            } else {
                split_lines_spec(lv)
            }),
        decreases lines@.len() - i,
    {
        let is_last = i == lines.len() - 1;
        let line_chars = chars_vec(lines[i].as_str());
        let mut words = split_ws_exec(&line_chars);
        proof {
            assert(lv[i as int] == lines@[i as int]@);
            assert(chars_list_view(words@) == split_ws(lv[i as int]));
        }
        if !is_last && words.len() > 0 {
            let last_idx = words.len() - 1;
            let ghost pre_words = chars_list_view(words@);
            let w = &mut words[last_idx];
            w.push('\n');
            proof {
                assert(chars_list_view(words@) =~= pre_words.update(
                    last_idx as int,
                    pre_words.last().push('\n'),
                ));
            }
        }
        proof {
            assert(chars_list_view(words@) == line_words(lv[i as int], is_last));
        }
        let mut k: usize = 0;
        let ghost out_base = strs_view(out@);
        while k < words.len()
            invariant
                k <= words@.len(),
                chars_list_view(words@) == line_words(lv[i as int], i == lines@.len() - 1),
                i < lines@.len(),
                lv == strs_view(lines@),
                strs_view(out@) == out_base + line_words(lv[i as int], i == lines@.len() - 1).take(
                    k as int,
                ),
            decreases words@.len() - k,
        {
            let ghost pre_out = out@;
            out.push(string_from_chars(&words[k]));
            k = k + 1;
            proof {
                assert(out@.drop_last() =~= pre_out);
                lemma_strs_view_push(out@);
                assert(chars_list_view(words@)[k - 1] == words@[k - 1]@);
                assert(strs_view(out@) =~= out_base + line_words(
                    lv[i as int],
                    i == lines@.len() - 1,
                ).take(k as int));
            }
        }
        i = i + 1;
        proof {
            let lw = line_words(lv[i - 1], i - 1 == lv.len() - 1);
            assert(lw.take(lw.len() as int) =~= lw);
            if i < lv.len() {
                assert(lv.take(i as int).drop_last() =~= lv.take(i - 1));
                assert(strs_view(out@) =~= mid_lines(lv.take(i as int)));
            } else {
                assert(lv.take(i - 1) =~= lv.drop_last());
                assert(strs_view(out@) =~= split_lines_spec(lv));
            }
        }
    }
    proof {
        if lines@.len() == 0 {
            assert(strs_view(out@) =~= split_lines_spec(lv));
        }
    }
    out
}

// ---------------------------------------------------------------------------
// Decimal numerals.
// ---------------------------------------------------------------------------
/// The decimal digit for a value below ten.
pub open spec fn digit_char(d: nat) -> char {
    ((48 + d) as u8) as char
}

/// The decimal numeral of a number, most significant digit first.
pub open spec fn dec_of(n: nat) -> Seq<char>
    decreases n,
{
    if n < 10 {
        seq![digit_char(n)]
    } else {
        dec_of(n / 10).push(digit_char(n % 10))
    }
}

/// Append the decimal numeral of `n`.
fn push_dec(n: u32, out: &mut Vec<char>)
    ensures
        final(out)@ == old(out)@ + dec_of(n as nat),
    decreases n,
{
    if n < 10 {
        out.push((48 + (n as u8)) as char);
        proof {
            assert(out@ =~= old(out)@ + dec_of(n as nat));
        }
    } else {
        push_dec(n / 10, out);
        out.push((48 + ((n % 10) as u8)) as char);
        proof {
            assert(out@ =~= old(out)@ + dec_of(n as nat));
        }
    }
}

/// Whether a word is the decimal numeral of a number in `lo..=hi`.
pub open spec fn is_numeral(w: Seq<char>, lo: nat, hi: nat) -> bool {
    exists|n: nat| lo <= n <= hi && w == dec_of(n)
}

// ---------------------------------------------------------------------------
// Random augmentation.
// ---------------------------------------------------------------------------
#[verifier::external_type_specification]
#[verifier::external_body]
pub struct ExThreadRng(rand::rngs::ThreadRng);

/// Relies on `rand::rng`: a handle to the thread-local generator, which
/// fails only if the operating system cannot supply entropy at its first
/// use. Nothing is assumed of the values it will produce.
#[verifier::external_body]
fn thread_rng() -> rand::rngs::ThreadRng {
    rand::rng()
}

/// Relies on `rand::Rng::random_range` over `lo..=hi`: it panics only on an
/// empty range and returns a value within the range; which one is arbitrary.
#[verifier::external_body]
fn rand_in_range(rng: &mut rand::rngs::ThreadRng, lo: u32, hi: u32) -> (r: u32)
    requires
        lo <= hi,
    ensures
        lo <= r <= hi,
{
    rng.random_range(lo..=hi)
}

/// Relies on `rand::Rng::random_ratio`: a draw that is true with probability
/// `numerator/denominator`, certain at either end; it panics only on a zero
/// denominator or a ratio above one.
#[verifier::external_body]
fn rand_ratio(rng: &mut rand::rngs::ThreadRng, numerator: u32, denominator: u32) -> (r: bool)
    requires
        denominator > 0,
        numerator <= denominator,
    ensures
        numerator == 0 ==> !r,
        numerator == denominator ==> r,
{
    rng.random_ratio(numerator, denominator)
}

/// The punctuation marks that may be appended to a generated word.
pub open spec fn punct_chars() -> Seq<char> {
    seq!['.', ',', '!', '?', ':', ';']
}

/// Whether a word may stand in a generated list: a word of the base list; or
/// (with punctuation on) such a word with one punctuation mark appended; or
/// the empty word when the base list is empty.
pub open spec fn from_base(w: Seq<char>, base: Seq<Seq<char>>, punct: bool) -> bool {
    ||| base.contains(w)
    ||| (base.len() == 0 && w == Seq::<char>::empty())
    ||| (punct && w.len() >= 1 && punct_chars().contains(w.last()) && (base.contains(w.drop_last())
        || (base.len() == 0 && w.drop_last() == Seq::<char>::empty())))
}

/// The whitespace-separated words of all lines together.
pub open spec fn base_words_of(lines: Seq<Seq<char>>) -> Seq<Seq<char>>
    decreases lines.len(),
{
    if lines.len() == 0 {
        Seq::empty()
    } else {
        base_words_of(lines.drop_last()) + split_ws(lines.last())
    }
}

/// Build a generated word list: `word_count` words drawn at random from the
/// lines' words, each with a one-in-five chance of a trailing punctuation
/// mark when punctuation is on, and with a one-in-five chance of a numeral
/// between 1 and 9999 directly after its word when numbers are on.
///
/// The random index is drawn as a `u32`, so with more than `u32::MAX` + 1
/// candidate words only the first `u32::MAX` + 1 can be picked.
pub fn finalize_lines(lines: Vec<String>, config: &Config) -> (r: Vec<String>)
    ensures
        ({
            let base = base_words_of(strs_view(lines@));
            &&& r@.len() >= config.word_count
            &&& r@.len() <= 2 * config.word_count
            &&& (!config.numbers ==> r@.len() == config.word_count)
            &&& forall|i: int|
                0 <= i < r@.len() ==> from_base(#[trigger] strs_view(r@)[i], base,
                config.punctuation) || (config.numbers && is_numeral(strs_view(r@)[i], 1, 9999)
                && i >= 1 && from_base(strs_view(r@)[i - 1], base, config.punctuation))
        }),
{
    let ghost base = base_words_of(strs_view(lines@));
    let mut base_words: Vec<Vec<char>> = Vec::new();
    let mut li: usize = 0;
    proof {
        assert(strs_view(lines@).take(0) =~= Seq::<Seq<char>>::empty());
        assert(chars_list_view(base_words@) =~= Seq::<Seq<char>>::empty());
    }
    while li < lines.len()
        invariant
            li <= lines@.len(),
            chars_list_view(base_words@) == base_words_of(strs_view(lines@).take(li as int)),
        decreases lines@.len() - li,
    {
        let line_chars = chars_vec(lines[li].as_str());
        let mut words = split_ws_exec(&line_chars);
        let ghost lw = split_ws(strs_view(lines@)[li as int]);
        proof {
            assert(strs_view(lines@)[li as int] == lines@[li as int]@);
            assert(chars_list_view(words@) == lw);
        }
        let mut k: usize = 0;
        let ghost acc0 = chars_list_view(base_words@);
        while k < words.len()
            invariant
                k <= words@.len(),
                chars_list_view(words@) == lw,
                chars_list_view(base_words@) == acc0 + lw.take(k as int),
            decreases words@.len() - k,
        {
            let ghost pre = base_words@;
            let w = copy_chars(&words[k]);
            base_words.push(w);
            k = k + 1;
            proof {
                assert(base_words@.drop_last() =~= pre);
                lemma_chars_list_view_push(base_words@);
                assert(chars_list_view(words@)[k - 1] == words@[k - 1]@);
                assert(chars_list_view(base_words@) =~= acc0 + lw.take(k as int));
            }
        }
        li = li + 1;
        proof {
            assert(lw.take(lw.len() as int) =~= lw);
            assert(strs_view(lines@).take(li as int).drop_last() =~= strs_view(lines@).take(
                li - 1,
            ));
            assert(chars_list_view(base_words@) =~= base_words_of(strs_view(lines@).take(
                li as int,
            )));
        }
    }
    proof {
        assert(strs_view(lines@).take(lines@.len() as int) =~= strs_view(lines@));
        assert(chars_list_view(base_words@) == base);
    }

    let mut rng = thread_rng();
    let mut out: Vec<String> = Vec::new();
    let mut n: usize = 0;
    while n < config.word_count
        invariant
            n <= config.word_count,
            chars_list_view(base_words@) == base,
            out@.len() >= n,
            out@.len() <= 2 * n,
            !config.numbers ==> out@.len() == n,
            forall|i: int|
                0 <= i < out@.len() ==> from_base(#[trigger] strs_view(out@)[i], base,
                config.punctuation) || (config.numbers && is_numeral(strs_view(out@)[i], 1, 9999)
                && i >= 1 && from_base(strs_view(out@)[i - 1], base, config.punctuation)),
        decreases config.word_count - n,
    {
        let mut word: Vec<char> = if base_words.len() > 0 {
            let hi = base_words.len() - 1;
            let cap: u32 = if hi >= 0xFFFF_FFFF {
                0xFFFF_FFFF
            } else {
                hi as u32
            };
            let picked = rand_in_range(&mut rng, 0, cap) as usize;
            proof {
                assert(chars_list_view(base_words@)[picked as int] == base_words@[
                    picked as int
                ]@);
            }
            copy_chars(&base_words[picked])
        } else {
            Vec::new()
        };
        let ghost bare = word@;
        proof {
            if base.len() > 0 {
                assert(base.contains(bare));
            }
        }
        if config.punctuation && rand_ratio(&mut rng, 1, 5) {
            let pick = rand_in_range(&mut rng, 0, 5);
            let p: char = if pick == 0 {
                '.'
            } else if pick == 1 {
                ','
            } else if pick == 2 {
                '!'
            } else if pick == 3 {
                '?'
            } else if pick == 4 {
                ':'
            } else {
                ';'
            };
            proof {
                assert(punct_chars().contains(p)) by {
                    if p == '.' {
                        assert(punct_chars()[0] == '.');
                    } else if p == ',' {
                        assert(punct_chars()[1] == ',');
                    } else if p == '!' {
                        assert(punct_chars()[2] == '!');
                    } else if p == '?' {
                        assert(punct_chars()[3] == '?');
                    } else if p == ':' {
                        assert(punct_chars()[4] == ':');
                    } else {
                        assert(punct_chars()[5] == ';');
                    }
                }
            }
            word.push(p);
            proof {
                assert(word@.drop_last() =~= bare);
            }
        }
        let ghost pre_out = out@;
        out.push(string_from_chars(&word));
        proof {
            assert(out@.drop_last() =~= pre_out);
            lemma_strs_view_push(out@);
            assert(from_base(word@, base, config.punctuation));
        }
        if config.numbers && rand_ratio(&mut rng, 1, 5) {
            let value = rand_in_range(&mut rng, 1, 9999);
            let mut digits: Vec<char> = Vec::new();
            push_dec(value, &mut digits);
            proof {
                assert(digits@ =~= dec_of(value as nat));
            }
            let ghost pre_out2 = out@;
            out.push(string_from_chars(&digits));
            proof {
                assert(out@.drop_last() =~= pre_out2);
                lemma_strs_view_push(out@);
                assert(is_numeral(digits@, 1, 9999));
                assert(strs_view(out@)[out@.len() - 2] == word@);
                assert(from_base(strs_view(out@)[out@.len() - 2], base, config.punctuation));
            }
        }
        n = n + 1;
    }
    out
}

} // verus!
