//! Color-scheme parsing: CSS custom-property declarations of the form
//! `--name: value;`, and `#rrggbb` color values.
//!
//! Reading a scheme file is the host's job; the grammar below is this
//! crate's own, checked character by character.

use vstd::prelude::*;

use crate::generator::is_space;
use crate::strings::{chars_eq, chars_vec, string_from_chars};

verus! {

// ---------------------------------------------------------------------------
// Trimming.
// ---------------------------------------------------------------------------
/// The sequence without its leading whitespace.
pub open spec fn trim_front(s: Seq<char>) -> Seq<char>
    decreases s.len(),
{
    if s.len() > 0 && is_space(s[0]) {
        trim_front(s.drop_first())
    } else {
        s
    }
}

/// The sequence without its trailing whitespace.
pub open spec fn trim_back(s: Seq<char>) -> Seq<char>
    decreases s.len(),
{
    if s.len() > 0 && is_space(s.last()) {
        trim_back(s.drop_last())
    } else {
        s
    }
}

/// The sequence without leading and trailing whitespace.
pub open spec fn trim_spec(s: Seq<char>) -> Seq<char> {
    trim_back(trim_front(s))
}

/// Drop leading and trailing whitespace.
pub fn trim_chars(s: &Vec<char>) -> (r: Vec<char>)
    ensures
        r@ == trim_spec(s@),
{
    let mut start: usize = 0;
    proof {
        assert(s@.subrange(0, s@.len() as int) =~= s@);
    }
    while start < s.len() && crate::generator::char_is_space(s[start])
        invariant
            start <= s@.len(),
            trim_front(s@) == trim_front(s@.subrange(start as int, s@.len() as int)),
        decreases s@.len() - start,
    {
        proof {
            assert(s@.subrange(start as int, s@.len() as int).drop_first() =~= s@.subrange(
                start + 1,
                s@.len() as int,
            ));
        }
        start = start + 1;
    }
    let mut end: usize = s.len();
    proof {
        let tail = s@.subrange(start as int, s@.len() as int);
        if start < s@.len() {
            assert(!is_space(tail[0]));
        }
        assert(trim_front(s@) == tail);
    }
    while end > start && crate::generator::char_is_space(s[end - 1])
        invariant
            start <= end <= s@.len(),
            trim_front(s@) == s@.subrange(start as int, s@.len() as int),
            trim_back(trim_front(s@)) == trim_back(s@.subrange(start as int, end as int)),
        decreases end,
    {
        proof {
            let cur = s@.subrange(start as int, end as int);
            assert(cur.last() == s@[end - 1]);
            assert(cur.drop_last() =~= s@.subrange(start as int, end - 1));
        }
        end = end - 1;
    }
    let mut r: Vec<char> = Vec::new();
    let mut i: usize = start;
    while i < end
        invariant
            start <= i <= end <= s@.len(),
            r@ == s@.subrange(start as int, i as int),
        decreases end - i,
    {
        r.push(s[i]);
        i = i + 1;
        proof {
            assert(r@ =~= s@.subrange(start as int, i as int));
        }
    }
    proof {
        let cur = s@.subrange(start as int, end as int);
        if end > start {
            assert(!is_space(cur.last()));
        }
        assert(trim_back(cur) == cur);
        assert(r@ =~= cur);
    }
    r
}

// ---------------------------------------------------------------------------
// Hex colors.
// ---------------------------------------------------------------------------
/// The value of a hexadecimal digit, if it is one.
pub open spec fn hex_val(c: char) -> Option<nat> {
    if '0' <= c <= '9' {
        Some((c as u32 - '0' as u32) as nat)
    } else if 'a' <= c <= 'f' {
        Some((10 + c as u32 - 'a' as u32) as nat)
    } else if 'A' <= c <= 'F' {
        Some((10 + c as u32 - 'A' as u32) as nat)
    } else {
        None
    }
}

/// The value of a hexadecimal digit.
fn hex_digit(c: char) -> (r: Option<u8>)
    ensures
        r is Some <==> hex_val(c) is Some,
        r matches Some(v) ==> hex_val(c) == Some(v as nat) && v < 16,
{
    if '0' <= c && c <= '9' {
        Some(((c as u32) - 48) as u8)
    } else if 'a' <= c && c <= 'f' {
        Some(((c as u32) - 97 + 10) as u8)
    } else if 'A' <= c && c <= 'F' {
        Some(((c as u32) - 65 + 10) as u8)
    } else {
        None
    }
}

/// What a trimmed `#rrggbb` value denotes: three byte channels, or nothing
/// when the shape is wrong.
pub open spec fn hex_color_spec(s: Seq<char>) -> Option<(u8, u8, u8)> {
    let t = trim_spec(s);
    if t.len() == 7 && t[0] == '#' && hex_val(t[1]) is Some && hex_val(t[2]) is Some && hex_val(
        t[3],
    ) is Some && hex_val(t[4]) is Some && hex_val(t[5]) is Some && hex_val(t[6]) is Some {
        Some(
            (
                (hex_val(t[1]).unwrap() * 16 + hex_val(t[2]).unwrap()) as u8,
                (hex_val(t[3]).unwrap() * 16 + hex_val(t[4]).unwrap()) as u8,
                (hex_val(t[5]).unwrap() * 16 + hex_val(t[6]).unwrap()) as u8,
            ),
        )
    } else {
        None
    }
}

/// Parse a `#rrggbb` color value, whitespace around it allowed. The caller
/// chooses the fallback for a value of any other shape.
pub fn parse_hex_color(s: &Vec<char>) -> (r: Option<(u8, u8, u8)>)
    ensures
        r == hex_color_spec(s@),
{
    let t = trim_chars(s);
    if t.len() != 7 {
        return None;
    }
    if t[0] != '#' {
        return None;
    }
    let d1 = hex_digit(t[1]);
    let d2 = hex_digit(t[2]);
    let d3 = hex_digit(t[3]);
    let d4 = hex_digit(t[4]);
    let d5 = hex_digit(t[5]);
    let d6 = hex_digit(t[6]);
    match (d1, d2, d3, d4, d5, d6) {
        (Some(a), Some(b), Some(c), Some(d), Some(e), Some(f)) => Some(
            (a * 16 + b, c * 16 + d, e * 16 + f),
        ),
        _ => None,
    }
}

// ---------------------------------------------------------------------------
// CSS custom properties.
// ---------------------------------------------------------------------------
/// Where the declaration scanner stands.
#[verifier::ext_equal]
pub enum CssMode {
    /// Looking for the first dash of a `--`.
    Seek,
    /// One dash seen.
    Dash,
    /// Reading the property name, up to the colon.
    Name,
    /// Reading the value, up to the semicolon.
    Value,
}

/// Scanner state: the mode, the pieces being read, and the declarations
/// found so far.
#[verifier::ext_equal]
pub struct CssAcc {
    pub mode: CssMode,
    pub name: Seq<char>,
    pub value: Seq<char>,
    pub pairs: Seq<(Seq<char>, Seq<char>)>,
}

/// The scanner's starting state.
pub open spec fn css_init() -> CssAcc {
    CssAcc { mode: CssMode::Seek, name: Seq::empty(), value: Seq::empty(), pairs: Seq::empty() }
}

/// One scanned character: `--` opens a name, the name runs to the first
/// colon, the value runs to the first semicolon, and a finished declaration
/// is emitted with both pieces trimmed.
pub open spec fn css_step(acc: CssAcc, c: char) -> CssAcc {
    match acc.mode {
        CssMode::Seek => {
            if c == '-' {
                CssAcc { mode: CssMode::Dash, ..acc }
            } else {
                acc
            }
        },
        CssMode::Dash => {
            if c == '-' {
                CssAcc { mode: CssMode::Name, name: Seq::empty(), ..acc }
            } else {
                CssAcc { mode: CssMode::Seek, ..acc }
            }
        },
        CssMode::Name => {
            if c == ':' {
                CssAcc { mode: CssMode::Value, value: Seq::empty(), ..acc }
            } else {
                CssAcc { name: acc.name.push(c), ..acc }
            }
        },
        CssMode::Value => {
            if c == ';' {
                CssAcc {
                    mode: CssMode::Seek,
                    pairs: acc.pairs.push((trim_spec(acc.name), trim_spec(acc.value))),
                    ..acc
                }
            } else {
                CssAcc { value: acc.value.push(c), ..acc }
            }
        },
    }
}

/// The whole scan.
pub open spec fn css_fold(s: Seq<char>, acc: CssAcc) -> CssAcc
    decreases s.len(),
{
    if s.len() == 0 {
        acc
    } else {
        css_step(css_fold(s.drop_last(), acc), s.last())
    }
}

/// The declarations `--name: value;` of a stylesheet, in order, names and
/// values trimmed. An unterminated declaration at the end is dropped.
pub open spec fn css_vars_spec(s: Seq<char>) -> Seq<(Seq<char>, Seq<char>)> {
    css_fold(s, css_init()).pairs
}

/// The models of a list of string pairs.
pub open spec fn pairs_view(s: Seq<(String, String)>) -> Seq<(Seq<char>, Seq<char>)> {
    s.map_values(|p: (String, String)| (p.0@, p.1@))
}

/// Viewing a non-empty pair list is viewing all but the last, then the last.
pub proof fn lemma_pairs_view_push(s: Seq<(String, String)>)
    requires
        s.len() > 0,
    ensures
        pairs_view(s) == pairs_view(s.drop_last()).push((s.last().0@, s.last().1@)),
{
    assert forall|k: int| 0 <= k < s.len() implies pairs_view(s)[k] == pairs_view(
        s.drop_last(),
    ).push((s.last().0@, s.last().1@))[k] by {
        assert(pairs_view(s)[k] == (s[k].0@, s[k].1@));
        if k < s.len() - 1 {
            assert(pairs_view(s.drop_last())[k] == (s.drop_last()[k].0@, s.drop_last()[k].1@));
        }
    }
    assert(pairs_view(s) =~= pairs_view(s.drop_last()).push((s.last().0@, s.last().1@)));
}

/// Collect the `--name: value;` declarations of a stylesheet, in order,
/// names and values trimmed.
pub fn parse_css_variables(content: &Vec<char>) -> (r: Vec<(String, String)>)
    ensures
        pairs_view(r@) == css_vars_spec(content@),
{
    let mut pairs: Vec<(String, String)> = Vec::new();
    let mut name: Vec<char> = Vec::new();
    let mut value: Vec<char> = Vec::new();
    let mut seek_dash: bool = false;
    let mut mode: u8 = 0;
    // Modes: 0 seek, 1 name, 2 value; `seek_dash` marks one dash seen.
    let mut i: usize = 0;
    proof {
        assert(content@.take(0) =~= Seq::<char>::empty());
        assert(pairs_view(pairs@) =~= Seq::<(Seq<char>, Seq<char>)>::empty());
    }
    while i < content.len()
        invariant
            i <= content@.len(),
            ({
                let acc = css_fold(content@.take(i as int), css_init());
                &&& pairs_view(pairs@) == acc.pairs
                &&& (acc.mode is Seek <==> (mode == 0 && !seek_dash))
                &&& (acc.mode is Dash <==> (mode == 0 && seek_dash))
                &&& (acc.mode is Name <==> mode == 1)
                &&& (acc.mode is Value <==> mode == 2)
                &&& (mode == 1 ==> name@ == acc.name)
                &&& (mode == 2 ==> name@ == acc.name && value@ == acc.value)
                &&& (mode != 0 ==> !seek_dash)
            }),
        decreases content@.len() - i,
    {
        proof {
            assert(content@.take(i + 1).drop_last() =~= content@.take(i as int));
            assert(content@.take(i + 1).last() == content@[i as int]);
        }
        let c = content[i];
        if mode == 0 {
            if c == '-' {
                if seek_dash {
                    seek_dash = false;
                    mode = 1;
                    name = Vec::new();
                } else {
                    seek_dash = true;
                }
            } else {
                seek_dash = false;
            }
        } else if mode == 1 {
            if c == ':' {
                mode = 2;
                value = Vec::new();
            } else {
                name.push(c);
            }
        } else {
            if c == ';' {
                let ghost pre = pairs@;
                let n = trim_chars(&name);
                let v = trim_chars(&value);
                pairs.push((string_from_chars(&n), string_from_chars(&v)));
                mode = 0;
                proof {
                    assert(pairs@.drop_last() =~= pre);
                    lemma_pairs_view_push(pairs@);
                    assert(pairs_view(pairs@) =~= css_fold(content@.take(i + 1), css_init()).pairs);
                }
            } else {
                value.push(c);
            }
        }
        i = i + 1;
        proof {
            let pre_acc = css_fold(content@.take(i - 1), css_init());
            let acc_new = css_fold(content@.take(i as int), css_init());
            assert(acc_new == css_step(pre_acc, content@[i - 1]));
            assert(pairs_view(pairs@) == acc_new.pairs);
            assert(acc_new.mode is Seek <==> (mode == 0 && !seek_dash));
            assert(acc_new.mode is Dash <==> (mode == 0 && seek_dash));
            assert(acc_new.mode is Name <==> mode == 1);
            assert(acc_new.mode is Value <==> mode == 2);
            assert(mode == 1 ==> name@ == acc_new.name);
            assert(mode == 2 ==> name@ == acc_new.name && value@ == acc_new.value);
        }
    }
    proof {
        assert(content@.take(content@.len() as int) =~= content@);
    }
    pairs
}

/// The value of the last declaration of `name`, as the stylesheet's final
/// word on it.
pub open spec fn last_value_of(pairs: Seq<(Seq<char>, Seq<char>)>, name: Seq<char>) -> Option<
    Seq<char>,
>
    decreases pairs.len(),
{
    if pairs.len() == 0 {
        None
    } else if pairs.last().0 == name {
        Some(pairs.last().1)
    } else {
        last_value_of(pairs.drop_last(), name)
    }
}

/// The color a scheme gives to `name`: its last `--name: #rrggbb;`
/// declaration, or nothing when the name is absent or its value is not a
/// well-formed color. The caller chooses the fallback.
pub fn scheme_color(pairs: &Vec<(String, String)>, name: &str) -> (r: Option<(u8, u8, u8)>)
    ensures
        r == (match last_value_of(pairs_view(pairs@), name@) {
            None => None::<(u8, u8, u8)>,
            Some(v) => hex_color_spec(v),
        }),
{
    let query = chars_vec(name);
    let mut k: usize = pairs.len();
    proof {
        assert(pairs_view(pairs@).take(pairs@.len() as int) =~= pairs_view(pairs@));
    }
    while k > 0
        invariant
            k <= pairs@.len(),
            query@ == name@,
            last_value_of(pairs_view(pairs@), name@) == last_value_of(
                pairs_view(pairs@).take(k as int),
                name@,
            ),
        decreases k,
    {
        proof {
            let cut = pairs_view(pairs@).take(k as int);
            assert(cut.last() == pairs_view(pairs@)[k - 1]);
            assert(pairs_view(pairs@)[k - 1] == (pairs@[k - 1].0@, pairs@[k - 1].1@));
            assert(cut.drop_last() =~= pairs_view(pairs@).take(k - 1));
        }
        let entry_name = chars_vec(pairs[k - 1].0.as_str());
        if chars_eq(&entry_name, &query) {
            let entry_value = chars_vec(pairs[k - 1].1.as_str());
            return parse_hex_color(&entry_value);
        }
        k = k - 1;
    }
    proof {
        assert(pairs_view(pairs@).take(0) =~= Seq::<(Seq<char>, Seq<char>)>::empty());
    }
    None
}

} // verus!
