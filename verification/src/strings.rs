//! Helpers between `&str`/`String` and sequences of Unicode scalar values.

use vstd::prelude::*;
use vstd::string::StrSliceExecFns;

verus! {

/// The parts joined with `sep` between consecutive parts.
pub open spec fn join_with(parts: Seq<Seq<char>>, sep: Seq<char>) -> Seq<char>
    decreases parts.len(),
{
    if parts.len() == 0 {
        Seq::empty()
    } else if parts.len() == 1 {
        parts[0]
    } else {
        parts[0] + sep + join_with(parts.drop_first(), sep)
    }
}

/// Joining one more part appends a separator exactly when something came
/// before it.
pub proof fn lemma_join_with_push(parts: Seq<Seq<char>>, sep: Seq<char>, part: Seq<char>)
    ensures
        join_with(parts.push(part), sep) == if parts.len() == 0 {
            part
        } else {
            join_with(parts, sep) + sep + part
        },
    decreases parts.len(),
{
    if parts.len() == 0 {
        assert(parts.push(part)[0] == part);
        assert(join_with(parts.push(part), sep) == part);
    } else if parts.len() == 1 {
        assert(parts.push(part).drop_first() =~= seq![part]);
        assert(parts.push(part)[0] == parts[0]);
        assert(join_with(seq![part], sep) == part);
        assert(join_with(parts.push(part), sep) =~= parts[0] + sep + part);
    } else {
        assert(parts.push(part).drop_first() =~= parts.drop_first().push(part));
        lemma_join_with_push(parts.drop_first(), sep, part);
        assert(join_with(parts, sep) + sep + part =~= parts[0] + sep + (join_with(
            parts.drop_first(),
            sep,
        ) + sep + part));
    }
}

/// The scalar values of a string slice, in order.
pub fn chars_vec(s: &str) -> (r: Vec<char>)
    ensures
        r@ == s@,
{
    let n = s.unicode_len();
    let mut r: Vec<char> = Vec::new();
    let mut i: usize = 0;
    while i < n
        invariant
            n == s@.len(),
            i <= n,
            r@ == s@.take(i as int),
        decreases n - i,
    {
        r.push(s.get_char(i));
        i = i + 1;
        proof {
            assert(r@ =~= s@.take(i as int));
        }
    }
    proof {
        assert(s@.take(n as int) =~= s@);
    }
    r
}

/// Append every scalar value of `s` to `acc`.
pub fn push_str_chars(acc: &mut Vec<char>, s: &str)
    ensures
        final(acc)@ == old(acc)@ + s@,
{
    let n = s.unicode_len();
    let mut i: usize = 0;
    while i < n
        invariant
            n == s@.len(),
            i <= n,
            acc@ == old(acc)@ + s@.take(i as int),
        decreases n - i,
    {
        acc.push(s.get_char(i));
        i = i + 1;
        proof {
            assert(old(acc)@ + s@.take(i as int) =~= (old(acc)@ + s@.take(i - 1)).push(
                s@[i - 1],
            ));
        }
    }
    proof {
        assert(s@.take(n as int) =~= s@);
    }
}

/// Whether `p` is a prefix of `t`, scalar value by scalar value.
pub open spec fn prefix_matches(p: Seq<char>, t: Seq<char>) -> bool {
    p.len() <= t.len() && p == t.take(p.len() as int)
}

/// Whether `p` is a prefix of `t`.
pub fn is_char_prefix(p: &Vec<char>, t: &Vec<char>) -> (r: bool)
    ensures
        r == prefix_matches(p@, t@),
{
    if p.len() > t.len() {
        return false;
    }
    let mut j: usize = 0;
    while j < p.len()
        invariant
            j <= p@.len() <= t@.len(),
            forall|k: int| 0 <= k < j ==> p@[k] == t@[k],
        decreases p@.len() - j,
    {
        if p[j] != t[j] {
            proof {
                assert(t@.take(p@.len() as int)[j as int] != p@[j as int]);
            }
            return false;
        }
        j = j + 1;
    }
    proof {
        assert(p@ =~= t@.take(p@.len() as int));
    }
    true
}

/// Whether the two char vectors hold the same scalar values.
pub fn chars_eq(a: &Vec<char>, b: &Vec<char>) -> (r: bool)
    ensures
        r == (a@ == b@),
{
    if a.len() != b.len() {
        return false;
    }
    let r = is_char_prefix(a, b);
    proof {
        if prefix_matches(a@, b@) {
            assert(a@ =~= b@);
        } else {
            assert(b@.take(a@.len() as int) =~= b@);
        }
    }
    r
}

/// A copy of the given char vector.
pub fn copy_chars(v: &Vec<char>) -> (r: Vec<char>)
    ensures
        r@ == v@,
{
    let mut r: Vec<char> = Vec::new();
    let mut i: usize = 0;
    while i < v.len()
        invariant
            i <= v@.len(),
            r@ == v@.take(i as int),
        decreases v@.len() - i,
    {
        r.push(v[i]);
        i = i + 1;
        proof {
            assert(r@ =~= v@.take(i as int));
        }
    }
    proof {
        assert(v@.take(v@.len() as int) =~= v@);
    }
    r
}

/// Relies on `String::from_iter` over `char`: the resulting string holds
/// exactly the given scalar values, in order.
#[verifier::external_body]
pub fn string_from_chars(v: &Vec<char>) -> (r: String)
    ensures
        r@ == v@,
{
    v.iter().collect()
}

/// The given string slices joined with `sep` between consecutive parts.
pub fn join_strs(parts: &Vec<&str>, sep: &str) -> (r: String)
    ensures
        r@ == join_with(parts@.map_values(|p: &str| p@), sep@),
{
    let ghost goal: Seq<Seq<char>> = parts@.map_values(|p: &str| p@);
    let mut acc: Vec<char> = Vec::new();
    let mut i: usize = 0;
    while i < parts.len()
        invariant
            i <= parts.len(),
            goal == parts@.map_values(|p: &str| p@),
            acc@ == join_with(goal.take(i as int), sep@),
        decreases parts.len() - i,
    {
        if i > 0 {
            push_str_chars(&mut acc, sep);
        }
        push_str_chars(&mut acc, parts[i]);
        proof {
            assert(goal.take(i + 1).drop_last() =~= goal.take(i as int));
            assert(goal.take(i + 1) == goal.take(i as int).push(goal[i as int]));
            lemma_join_with_push(goal.take(i as int), sep@, goal[i as int]);
        }
        i = i + 1;
    }
    proof {
        assert(goal.take(parts@.len() as int) =~= goal);
    }
    string_from_chars(&acc)
}

} // verus!
