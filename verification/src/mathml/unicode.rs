//! Unicode subscript and superscript forms of characters.
use vstd::prelude::*;
use crate::text::{is_ws, is_whitespace, join, lemma_join_push, push_all, contains_char};

verus! {

/// The Unicode subscript form of `c`, where the renderer knows one.
pub open spec fn subscript_form(c: char) -> Option<char> {
    match c {
        '0' => Some('₀'),
        '1' => Some('₁'),
        '2' => Some('₂'),
        '3' => Some('₃'),
        '4' => Some('₄'),
        '5' => Some('₅'),
        '6' => Some('₆'),
        '7' => Some('₇'),
        '8' => Some('₈'),
        '9' => Some('₉'),
        'a' => Some('ₐ'),
        'e' => Some('ₑ'),
        'i' => Some('ᵢ'),
        'j' => Some('ⱼ'),
        'o' => Some('ₒ'),
        'u' => Some('ᵤ'),
        'x' => Some('ₓ'),
        'h' => Some('ₕ'),
        'k' => Some('ₖ'),
        'l' => Some('ₗ'),
        'm' => Some('ₘ'),
        'n' => Some('ₙ'),
        'p' => Some('ₚ'),
        'r' => Some('ᵣ'),
        's' => Some('ₛ'),
        't' => Some('ₜ'),
        'v' => Some('ᵥ'),
        '+' => Some('₊'),
        '-' => Some('₋'),
        '=' => Some('₌'),
        '(' => Some('₍'),
        ')' => Some('₎'),
        'ə' => Some('ₔ'),
        ',' => Some(','),
        ' ' => Some(' '),
        _ => None,
    }
}

/// The Unicode superscript form of `c`, where the renderer knows one.
pub open spec fn superscript_form(c: char) -> Option<char> {
    match c {
        '0' => Some('⁰'),
        '1' => Some('¹'),
        '2' => Some('²'),
        '3' => Some('³'),
        '4' => Some('⁴'),
        '5' => Some('⁵'),
        '6' => Some('⁶'),
        '7' => Some('⁷'),
        '8' => Some('⁸'),
        '9' => Some('⁹'),
        'a' => Some('ᵃ'),
        'b' => Some('ᵇ'),
        'c' => Some('ᶜ'),
        'd' => Some('ᵈ'),
        'e' => Some('ᵉ'),
        'f' => Some('ᶠ'),
        'g' => Some('ᵍ'),
        'h' => Some('ʰ'),
        'i' => Some('ⁱ'),
        'j' => Some('ʲ'),
        'k' => Some('ᵏ'),
        'l' => Some('ˡ'),
        'm' => Some('ᵐ'),
        'n' => Some('ⁿ'),
        'o' => Some('ᵒ'),
        'p' => Some('ᵖ'),
        'r' => Some('ʳ'),
        's' => Some('ˢ'),
        't' => Some('ᵗ'),
        'u' => Some('ᵘ'),
        'v' => Some('ᵛ'),
        'w' => Some('ʷ'),
        'x' => Some('ˣ'),
        'y' => Some('ʸ'),
        'z' => Some('ᶻ'),
        'A' => Some('ᴬ'),
        'B' => Some('ᴮ'),
        'D' => Some('ᴰ'),
        'E' => Some('ᴱ'),
        'G' => Some('ᴳ'),
        'H' => Some('ᴴ'),
        'I' => Some('ᴵ'),
        'J' => Some('ᴶ'),
        'K' => Some('ᴷ'),
        'L' => Some('ᴸ'),
        'M' => Some('ᴹ'),
        'N' => Some('ᴺ'),
        'O' => Some('ᴼ'),
        'P' => Some('ᴾ'),
        'R' => Some('ᴿ'),
        'T' => Some('ᵀ'),
        'U' => Some('ᵁ'),
        'V' => Some('ⱽ'),
        'W' => Some('ᵂ'),
        '+' => Some('⁺'),
        '-' => Some('⁻'),
        '=' => Some('⁼'),
        '(' => Some('⁽'),
        ')' => Some('⁾'),
        'θ' => Some('ᶿ'),
        '\'' => Some('′'),
        '⊺' => Some('ᵀ'),
        ' ' => Some(' '),
        '*' => Some('·'),
        _ => None,
    }
}

/// Symbols that already sit at superscript height and are kept as they are.
pub open spec fn is_inline_superscript_symbol(c: char) -> bool {
    c == '′' || c == '″' || c == '‴' || c == '†' || c == '‡' || c == '°'
}

pub fn subscript_char(c: char) -> (r: Option<char>)
    ensures
        r == subscript_form(c),
{
    match c {
        '0' => Some('₀'),
        '1' => Some('₁'),
        '2' => Some('₂'),
        '3' => Some('₃'),
        '4' => Some('₄'),
        '5' => Some('₅'),
        '6' => Some('₆'),
        '7' => Some('₇'),
        '8' => Some('₈'),
        '9' => Some('₉'),
        'a' => Some('ₐ'),
        'e' => Some('ₑ'),
        'i' => Some('ᵢ'),
        'j' => Some('ⱼ'),
        'o' => Some('ₒ'),
        'u' => Some('ᵤ'),
        'x' => Some('ₓ'),
        'h' => Some('ₕ'),
        'k' => Some('ₖ'),
        'l' => Some('ₗ'),
        'm' => Some('ₘ'),
        'n' => Some('ₙ'),
        'p' => Some('ₚ'),
        'r' => Some('ᵣ'),
        's' => Some('ₛ'),
        't' => Some('ₜ'),
        'v' => Some('ᵥ'),
        '+' => Some('₊'),
        '-' => Some('₋'),
        '=' => Some('₌'),
        '(' => Some('₍'),
        ')' => Some('₎'),
        'ə' => Some('ₔ'),
        ',' => Some(','),
        ' ' => Some(' '),
        _ => None,
    }
}

pub fn superscript_char(c: char) -> (r: Option<char>)
    ensures
        r == superscript_form(c),
{
    match c {
        '0' => Some('⁰'),
        '1' => Some('¹'),
        '2' => Some('²'),
        '3' => Some('³'),
        '4' => Some('⁴'),
        '5' => Some('⁵'),
        '6' => Some('⁶'),
        '7' => Some('⁷'),
        '8' => Some('⁸'),
        '9' => Some('⁹'),
        'a' => Some('ᵃ'),
        'b' => Some('ᵇ'),
        'c' => Some('ᶜ'),
        'd' => Some('ᵈ'),
        'e' => Some('ᵉ'),
        'f' => Some('ᶠ'),
        'g' => Some('ᵍ'),
        'h' => Some('ʰ'),
        'i' => Some('ⁱ'),
        'j' => Some('ʲ'),
        'k' => Some('ᵏ'),
        'l' => Some('ˡ'),
        'm' => Some('ᵐ'),
        'n' => Some('ⁿ'),
        'o' => Some('ᵒ'),
        'p' => Some('ᵖ'),
        'r' => Some('ʳ'),
        's' => Some('ˢ'),
        't' => Some('ᵗ'),
        'u' => Some('ᵘ'),
        'v' => Some('ᵛ'),
        'w' => Some('ʷ'),
        'x' => Some('ˣ'),
        'y' => Some('ʸ'),
        'z' => Some('ᶻ'),
        'A' => Some('ᴬ'),
        'B' => Some('ᴮ'),
        'D' => Some('ᴰ'),
        'E' => Some('ᴱ'),
        'G' => Some('ᴳ'),
        'H' => Some('ᴴ'),
        'I' => Some('ᴵ'),
        'J' => Some('ᴶ'),
        'K' => Some('ᴷ'),
        'L' => Some('ᴸ'),
        'M' => Some('ᴹ'),
        'N' => Some('ᴺ'),
        'O' => Some('ᴼ'),
        'P' => Some('ᴾ'),
        'R' => Some('ᴿ'),
        'T' => Some('ᵀ'),
        'U' => Some('ᵁ'),
        'V' => Some('ⱽ'),
        'W' => Some('ᵂ'),
        '+' => Some('⁺'),
        '-' => Some('⁻'),
        '=' => Some('⁼'),
        '(' => Some('⁽'),
        ')' => Some('⁾'),
        'θ' => Some('ᶿ'),
        '\'' => Some('′'),
        '⊺' => Some('ᵀ'),
        ' ' => Some(' '),
        '*' => Some('·'),
        _ => None,
    }
}


/// The words of `s` as `str::split_whitespace` yields them.
pub open spec fn ws_words(s: Seq<char>) -> Seq<Seq<char>>
    decreases s.len(),
{
    if s.len() == 0 {
        Seq::empty()
    } else {
        let p = s.drop_last();
        let c = s.last();
        let w = ws_words(p);
        if is_ws(c) {
            w
        } else if p.len() > 0 && !is_ws(p.last()) {
            w.update(w.len() - 1, w.last().push(c))
        } else {
            w.push(seq![c])
        }
    }
}

/// Every character mapped through `f`, or `None` when some character has no image.
pub open spec fn map_chars(s: Seq<char>, f: spec_fn(char) -> Option<char>) -> Option<Seq<char>> {
    if forall|i: int| 0 <= i < s.len() ==> #[trigger] f(s[i]) is Some {
        Some(Seq::new(s.len(), |i: int| f(s[i])->0))
    } else {
        None
    }
}

/// The image of a character in a superscript: its superscript form, or the
/// character itself when it already sits at superscript height.
pub open spec fn superscript_image(c: char) -> Option<char> {
    match superscript_form(c) {
        Some(d) => Some(d),
        None => if is_inline_superscript_symbol(c) {
            Some(c)
        } else {
            None
        },
    }
}

/// A superscript text with white space normalised: words joined without a gap
/// when the text holds `*`, `/` or `=`, and with one space otherwise.
pub open spec fn superscript_normalized(text: Seq<char>) -> Seq<char> {
    let has_op = text.contains('*') || text.contains('/') || text.contains('=');
    join(ws_words(text), if has_op { Seq::empty() } else { seq![' '] })
}

/// The whole text in Unicode subscript characters, when each one has a form.
pub open spec fn unicode_subscript(text: Seq<char>, use_unicode: bool) -> Option<Seq<char>> {
    if !use_unicode || text.len() == 0 {
        None
    } else {
        map_chars(text, |c: char| subscript_form(c))
    }
}

/// The whole (normalised) text in Unicode superscript characters, when each one has a form.
pub open spec fn unicode_superscript(text: Seq<char>, use_unicode: bool) -> Option<Seq<char>> {
    if !use_unicode || text.len() == 0 {
        None
    } else {
        map_chars(superscript_normalized(text), |c: char| superscript_image(c))
    }
}

pub proof fn lemma_ws_words_last_nonempty(s: Seq<char>)
    requires
        s.len() > 0,
        !is_ws(s.last()),
    ensures
        ws_words(s).len() > 0,
    decreases s.len(),
{
    let p = s.drop_last();
    if p.len() > 0 && !is_ws(p.last()) {
        lemma_ws_words_last_nonempty(p);
    }
}

pub proof fn lemma_join_extend_last(parts: Seq<Seq<char>>, sep: Seq<char>, c: char)
    requires
        parts.len() > 0,
    ensures
        join(parts.update(parts.len() - 1, parts.last().push(c)), sep) == join(parts, sep).push(c),
{
    let q = parts.update(parts.len() - 1, parts.last().push(c));
    assert(q.drop_last() =~= parts.drop_last());
    if parts.len() == 1 {
        assert(q[0] == parts[0].push(c));
    } else {
        assert(q.last() == parts.last().push(c));
        assert(join(q, sep) == join(parts.drop_last(), sep) + sep + parts.last().push(c));
        assert(join(parts.drop_last(), sep) + sep + parts.last().push(c) =~= (join(
            parts.drop_last(),
            sep,
        ) + sep + parts.last()).push(c));
    }
}

/// `str::split_whitespace` followed by `join(sep)`.
pub fn join_words(s: &[char], sep: &[char]) -> (out: Vec<char>)
    ensures
        out@ == join(ws_words(s@), sep@),
{
    let n = s.len();
    let mut out: Vec<char> = Vec::new();
    let mut i: usize = 0;
    while i < n
        invariant
            n == s@.len(),
            i <= n,
            out@ == join(ws_words(s@.take(i as int)), sep@),
        decreases n - i,
    {
        let c = s[i];
        let ghost pre = s@.take(i as int);
        proof {
            assert(s@.take(i + 1).drop_last() =~= pre);
            assert(s@.take(i + 1).last() == c);
        }
        if is_whitespace(c) {
        } else if i > 0 && !is_whitespace(s[i - 1]) {
            proof {
                assert(pre.last() == s@[i - 1]);
                lemma_ws_words_last_nonempty(pre);
                lemma_join_extend_last(ws_words(pre), sep@, c);
            }
            out.push(c);
        } else {
            proof {
                lemma_join_push(ws_words(pre), sep@, seq![c]);
                if i > 0 {
                    assert(pre.last() == s@[i - 1]);
                }
            }
            if ws_words_nonempty(s, i) {
                push_all(&mut out, sep);
            }
            out.push(c);
            proof {
                let w = ws_words(pre);
                if w.len() == 0 {
                    assert(out@ =~= seq![c]);
                } else {
                    assert(out@ =~= join(w, sep@) + sep@ + seq![c]);
                }
            }
        }
        i += 1;
    }
    proof {
        assert(s@.take(n as int) =~= s@);
    }
    out
}

/// Whether the prefix of length `i` holds a word.
fn ws_words_nonempty(s: &[char], i: usize) -> (b: bool)
    requires
        i <= s@.len(),
    ensures
        b == (ws_words(s@.take(i as int)).len() > 0),
{
    let mut k: usize = 0;
    while k < i
        invariant
            k <= i <= s@.len(),
            forall|m: int| 0 <= m < k ==> is_ws(#[trigger] s@[m]),
        decreases i - k,
    {
        if !is_whitespace(s[k]) {
            proof {
                lemma_words_nonempty_if_nonws(s@.take(i as int), k as int);
            }
            return true;
        }
        k += 1;
    }
    proof {
        lemma_words_empty_if_all_ws(s@.take(i as int));
    }
    false
}

proof fn lemma_words_nonempty_if_nonws(s: Seq<char>, k: int)
    requires
        0 <= k < s.len(),
        !is_ws(s[k]),
    ensures
        ws_words(s).len() > 0,
    decreases s.len(),
{
    let p = s.drop_last();
    if k == s.len() - 1 {
        lemma_ws_words_last_nonempty(s);
    } else {
        lemma_words_nonempty_if_nonws(p, k);
        lemma_ws_words_len_mono(s);
    }
}

proof fn lemma_ws_words_len_mono(s: Seq<char>)
    requires
        s.len() > 0,
    ensures
        ws_words(s).len() >= ws_words(s.drop_last()).len(),
{
}

proof fn lemma_words_empty_if_all_ws(s: Seq<char>)
    requires
        forall|m: int| 0 <= m < s.len() ==> is_ws(#[trigger] s[m]),
    ensures
        ws_words(s).len() == 0,
    decreases s.len(),
{
    if s.len() > 0 {
        let p = s.drop_last();
        assert(is_ws(s[s.len() - 1]));
        assert forall|m: int| 0 <= m < p.len() implies is_ws(#[trigger] p[m]) by {
            assert(p[m] == s[m]);
        }
        lemma_words_empty_if_all_ws(p);
    }
}

/// Maps each character to its subscript form, or fails when one has none.
pub fn map_subscript(s: &[char]) -> (r: Option<Vec<char>>)
    ensures
        r matches Some(v) ==> map_chars(s@, |c: char| subscript_form(c)) == Some(v@),
        r is None ==> map_chars(s@, |c: char| subscript_form(c)) is None,
{
    let n = s.len();
    let mut out: Vec<char> = Vec::new();
    let mut i: usize = 0;
    while i < n
        invariant
            n == s@.len(),
            i <= n,
            out@.len() == i,
            forall|k: int| 0 <= k < i ==> #[trigger] subscript_form(s@[k]) == Some(out@[k]),
        decreases n - i,
    {
        match subscript_char(s[i]) {
            Some(d) => out.push(d),
            None => {
                proof {
                    let f = |c: char| subscript_form(c);
                    assert(f(s@[i as int]) is None);
                }
                return None;
            },
        }
        i += 1;
    }
    proof {
        let f = |c: char| subscript_form(c);
        assert forall|k: int| 0 <= k < s@.len() implies #[trigger] f(s@[k]) is Some by {
            assert(subscript_form(s@[k]) == Some(out@[k]));
        }
        assert(Seq::new(s@.len(), |k: int| f(s@[k])->0) =~= out@);
    }
    Some(out)
}

pub fn superscript_image_char(c: char) -> (r: Option<char>)
    ensures
        r == superscript_image(c),
{
    match superscript_char(c) {
        Some(d) => Some(d),
        None => if c == '′' || c == '″' || c == '‴' || c == '†' || c == '‡' || c == '°' {
            Some(c)
        } else {
            None
        },
    }
}

/// Maps each character to its superscript image, or fails when one has none.
pub fn map_superscript(s: &[char]) -> (r: Option<Vec<char>>)
    ensures
        r matches Some(v) ==> map_chars(s@, |c: char| superscript_image(c)) == Some(v@),
        r is None ==> map_chars(s@, |c: char| superscript_image(c)) is None,
{
    let n = s.len();
    let mut out: Vec<char> = Vec::new();
    let mut i: usize = 0;
    while i < n
        invariant
            n == s@.len(),
            i <= n,
            out@.len() == i,
            forall|k: int| 0 <= k < i ==> #[trigger] superscript_image(s@[k]) == Some(out@[k]),
        decreases n - i,
    {
        match superscript_image_char(s[i]) {
            Some(d) => out.push(d),
            None => {
                proof {
                    let f = |c: char| superscript_image(c);
                    assert(f(s@[i as int]) is None);
                }
                return None;
            },
        }
        i += 1;
    }
    proof {
        let f = |c: char| superscript_image(c);
        assert forall|k: int| 0 <= k < s@.len() implies #[trigger] f(s@[k]) is Some by {
            assert(superscript_image(s@[k]) == Some(out@[k]));
        }
        assert(Seq::new(s@.len(), |k: int| f(s@[k])->0) =~= out@);
    }
    Some(out)
}

pub fn to_unicode_subscript(text: &[char], use_unicode: bool) -> (r: Option<Vec<char>>)
    ensures
        r matches Some(v) ==> unicode_subscript(text@, use_unicode) == Some(v@),
        r is None ==> unicode_subscript(text@, use_unicode) is None,
{
    if !use_unicode || text.len() == 0 {
        return None;
    }
    map_subscript(text)
}

pub fn to_unicode_superscript(text: &[char], use_unicode: bool) -> (r: Option<Vec<char>>)
    ensures
        r matches Some(v) ==> unicode_superscript(text@, use_unicode) == Some(v@),
        r is None ==> unicode_superscript(text@, use_unicode) is None,
{
    if !use_unicode || text.len() == 0 {
        return None;
    }
    let has_op = contains_char(text, '*') || contains_char(text, '/') || contains_char(text, '=');
    let sep: Vec<char> = if has_op {
        Vec::new()
    } else {
        let mut v = Vec::new();
        v.push(' ');
        v
    };
    proof {
        if !has_op {
            assert(sep@ =~= seq![' ']);
        }
    }
    let normalized = join_words(text, sep.as_slice());
    map_superscript(normalized.as_slice())
}

} // verus!
