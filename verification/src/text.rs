//! Character-level utilities on strings: equality, lexicographic comparison
//! by Unicode scalar value, and whitespace tests.

use vstd::prelude::*;

verus! {

/// Lexicographic comparison of two character sequences by scalar value.
pub open spec fn lex_cmp(a: Seq<char>, b: Seq<char>) -> core::cmp::Ordering
    decreases a.len(),
{
    if a.len() == 0 && b.len() == 0 {
        core::cmp::Ordering::Equal
    } else if a.len() == 0 {
        core::cmp::Ordering::Less
    } else if b.len() == 0 {
        core::cmp::Ordering::Greater
    } else if (a[0] as u32) < (b[0] as u32) {
        core::cmp::Ordering::Less
    } else if (a[0] as u32) > (b[0] as u32) {
        core::cmp::Ordering::Greater
    } else {
        lex_cmp(a.drop_first(), b.drop_first())
    }
}

/// Equality of two string slices, decided character by character.
pub fn str_eq(a: &str, b: &str) -> (r: bool)
    ensures
        r == (a@ == b@),
{
    let an = a.unicode_len();
    let bn = b.unicode_len();
    if an != bn {
        assert(a@ != b@);
        return false;
    }
    let mut i: usize = 0;
    while i < an
        invariant
            an == a@.len(),
            an == b@.len(),
            i <= an,
            forall|j: int| 0 <= j < i ==> a@[j] == b@[j],
        decreases an - i,
    {
        if a.get_char(i) != b.get_char(i) {
            assert(a@ != b@);
            return false;
        }
        i += 1;
    }
    assert(a@ =~= b@);
    true
}

/// The comparison of two sequences is decided past any common prefix.
proof fn lemma_lex_cmp_skip(a: Seq<char>, b: Seq<char>, i: int)
    requires
        0 <= i <= a.len(),
        i <= b.len(),
        forall|j: int| 0 <= j < i ==> a[j] == b[j],
    ensures
        lex_cmp(a, b) == lex_cmp(a.skip(i), b.skip(i)),
    decreases i,
{
    if i > 0 {
        assert(a[0] == b[0]);
        lemma_lex_cmp_skip(a.drop_first(), b.drop_first(), i - 1);
        assert(a.drop_first().skip(i - 1) =~= a.skip(i));
        assert(b.drop_first().skip(i - 1) =~= b.skip(i));
    } else {
        assert(a.skip(0) =~= a);
        assert(b.skip(0) =~= b);
    }
}

/// Three-way lexicographic comparison of two string slices.
pub fn str_cmp(a: &str, b: &str) -> (r: core::cmp::Ordering)
    ensures
        r == lex_cmp(a@, b@),
{
    let an = a.unicode_len();
    let bn = b.unicode_len();
    let mut i: usize = 0;
    loop
        invariant
            an == a@.len(),
            bn == b@.len(),
            i <= an,
            i <= bn,
            forall|j: int| 0 <= j < i ==> a@[j] == b@[j],
        decreases an - i,
    {
        proof {
            lemma_lex_cmp_skip(a@, b@, i as int);
        }
        if i >= an || i >= bn {
            if an == bn {
                return core::cmp::Ordering::Equal;
            } else if i >= an {
                return core::cmp::Ordering::Less;
            } else {
                return core::cmp::Ordering::Greater;
            }
        }
        let ca = a.get_char(i);
        let cb = b.get_char(i);
        proof {
            assert(a@.skip(i as int)[0] == a@[i as int]);
            assert(b@.skip(i as int)[0] == b@[i as int]);
        }
        if (ca as u32) < (cb as u32) {
            return core::cmp::Ordering::Less;
        } else if (ca as u32) > (cb as u32) {
            return core::cmp::Ordering::Greater;
        }
        i += 1;
    }
}

/// The characters with the Unicode `White_Space` property, as documented for
/// `char::is_whitespace` in the standard library.
pub open spec fn is_ws_char(c: char) -> bool {
    let u = c as u32;
    ||| (0x9 <= u && u <= 0xD)
    ||| u == 0x20
    ||| u == 0x85
    ||| u == 0xA0
    ||| u == 0x1680
    ||| (0x2000 <= u && u <= 0x200A)
    ||| u == 0x2028
    ||| u == 0x2029
    ||| u == 0x202F
    ||| u == 0x205F
    ||| u == 0x3000
}

pub open spec fn is_blank_chars(s: Seq<char>) -> bool {
    forall|i: int| 0 <= i < s.len() ==> is_ws_char(s[i])
}

fn is_ws_char_exec(c: char) -> (r: bool)
    ensures
        r == is_ws_char(c),
{
    let u = c as u32;
    (0x9 <= u && u <= 0xD) || u == 0x20 || u == 0x85 || u == 0xA0 || u == 0x1680 || (0x2000 <= u
        && u <= 0x200A) || u == 0x2028 || u == 0x2029 || u == 0x202F || u == 0x205F || u == 0x3000
}

/// True when the string is empty or made of whitespace characters only.
pub fn is_blank(s: &str) -> (r: bool)
    ensures
        r == is_blank_chars(s@),
{
    let n = s.unicode_len();
    let mut i: usize = 0;
    while i < n
        invariant
            n == s@.len(),
            i <= n,
            forall|j: int| 0 <= j < i ==> is_ws_char(s@[j]),
        decreases n - i,
    {
        if !is_ws_char_exec(s.get_char(i)) {
            return false;
        }
        i += 1;
    }
    true
}

/// The index of the first non-whitespace character, or the length.
pub open spec fn first_non_ws(s: Seq<char>) -> int
    decreases s.len(),
{
    if s.len() == 0 {
        0
    } else if !is_ws_char(s[0]) {
        0
    } else {
        1 + first_non_ws(s.drop_first())
    }
}

/// The index one past the last non-whitespace character, or 0.
pub open spec fn last_non_ws(s: Seq<char>) -> int
    decreases s.len(),
{
    if s.len() == 0 {
        0
    } else if !is_ws_char(s.last()) {
        s.len() as int
    } else {
        last_non_ws(s.drop_last())
    }
}

/// The string without its leading and trailing whitespace.
pub open spec fn trim_chars(s: Seq<char>) -> Seq<char> {
    let a = first_non_ws(s);
    let b = last_non_ws(s);
    if a <= b {
        s.subrange(a, b)
    } else {
        Seq::empty()
    }
}

proof fn lemma_first_non_ws_le(s: Seq<char>)
    ensures
        0 <= first_non_ws(s) <= s.len(),
        first_non_ws(s) < s.len() ==> !is_ws_char(s[first_non_ws(s)]),
        forall|j: int| 0 <= j < first_non_ws(s) ==> is_ws_char(#[trigger] s[j]),
    decreases s.len(),
{
    if s.len() > 0 && is_ws_char(s[0]) {
        lemma_first_non_ws_le(s.drop_first());
        assert forall|j: int| 0 <= j < first_non_ws(s) implies is_ws_char(#[trigger] s[j]) by {
            if j >= 1 {
                assert(s.drop_first()[j - 1] == s[j]);
                assert(is_ws_char(s.drop_first()[j - 1]));
            }
        }
    }
}

proof fn lemma_last_non_ws_le(s: Seq<char>)
    ensures
        0 <= last_non_ws(s) <= s.len(),
        last_non_ws(s) > 0 ==> !is_ws_char(s[last_non_ws(s) - 1]),
        forall|j: int| last_non_ws(s) <= j < s.len() ==> is_ws_char(#[trigger] s[j]),
    decreases s.len(),
{
    if s.len() > 0 && is_ws_char(s.last()) {
        lemma_last_non_ws_le(s.drop_last());
        assert forall|j: int| last_non_ws(s) <= j < s.len() implies is_ws_char(
            #[trigger] s[j],
        ) by {
            if j < s.len() - 1 {
                assert(s.drop_last()[j] == s[j]);
                assert(is_ws_char(s.drop_last()[j]));
            }
        }
    }
}

/// Strips leading and trailing whitespace, as a character list.
pub(crate) fn trim_to_chars(s: &str) -> (r: Vec<char>)
    ensures
        r@ == trim_chars(s@),
{
    proof {
        lemma_first_non_ws_le(s@);
        lemma_last_non_ws_le(s@);
    }
    let n = s.unicode_len();
    let mut a: usize = 0;
    while a < n && is_ws_char_exec(s.get_char(a))
        invariant
            n == s@.len(),
            a <= n,
            forall|j: int| 0 <= j < a ==> is_ws_char(#[trigger] s@[j]),
            a <= first_non_ws(s@),
        decreases n - a,
    {
        proof {
            lemma_first_non_ws_prefix(s@, a as int);
        }
        a += 1;
    }
    proof {
        assert(a == first_non_ws(s@)) by {
            if a < n {
                lemma_first_non_ws_prefix_stop(s@, a as int);
            }
        }
    }
    let mut b: usize = n;
    while b > a && is_ws_char_exec(s.get_char(b - 1))
        invariant
            n == s@.len(),
            a <= b <= n,
            a == first_non_ws(s@),
            forall|j: int| b <= j < n ==> is_ws_char(#[trigger] s@[j]),
            last_non_ws(s@) <= b,
        decreases b,
    {
        proof {
            lemma_last_non_ws_suffix(s@, b - 1);
        }
        b -= 1;
    }
    proof {
        assert(b == last_non_ws(s@) || (a == b && last_non_ws(s@) <= b)) by {
            if b > a && last_non_ws(s@) < b {
                lemma_last_non_ws_suffix_stop(s@, b as int);
            }
        }
    }
    let mut r: Vec<char> = Vec::new();
    let mut i: usize = a;
    while i < b
        invariant
            n == s@.len(),
            a <= i <= b <= n,
            r@ == s@.subrange(a as int, i as int),
        decreases b - i,
    {
        r.push(s.get_char(i));
        proof {
            assert(s@.subrange(a as int, i + 1) =~= s@.subrange(a as int, i as int).push(
                s@[i as int],
            ));
        }
        i += 1;
    }
    proof {
        if a as int <= last_non_ws(s@) {
            if b as int == last_non_ws(s@) {
                assert(r@ =~= trim_chars(s@));
            } else {
                assert(a == b);
                assert(r@ =~= s@.subrange(a as int, a as int));
                assert(trim_chars(s@) == s@.subrange(first_non_ws(s@), last_non_ws(s@)) || trim_chars(
                    s@,
                ) == Seq::<char>::empty());
                assert(last_non_ws(s@) <= a);
                if first_non_ws(s@) <= last_non_ws(s@) {
                    assert(trim_chars(s@) =~= Seq::<char>::empty());
                }
                assert(r@ =~= Seq::<char>::empty());
                assert(r@ =~= trim_chars(s@));
            }
        } else {
            assert(a == b);
            assert(r@ =~= Seq::<char>::empty());
            assert(r@ =~= trim_chars(s@));
        }
    }
    r
}

/// Whatever whitespace precedes position `i` keeps the first-non-whitespace
/// search going.
proof fn lemma_first_non_ws_prefix(s: Seq<char>, i: int)
    requires
        0 <= i < s.len(),
        forall|j: int| 0 <= j <= i ==> is_ws_char(#[trigger] s[j]),
    ensures
        first_non_ws(s) >= i + 1,
    decreases i,
{
    if i > 0 {
        lemma_first_non_ws_prefix(s.drop_first(), i - 1);
        assert(forall|j: int| 0 <= j <= i - 1 ==> is_ws_char(#[trigger] s.drop_first()[j]));
    } else {
        if s.len() > 0 && is_ws_char(s[0]) {
            lemma_first_non_ws_nonneg(s.drop_first());
        }
    }
}

proof fn lemma_first_non_ws_nonneg(s: Seq<char>)
    ensures
        first_non_ws(s) >= 0,
    decreases s.len(),
{
    if s.len() > 0 && is_ws_char(s[0]) {
        lemma_first_non_ws_nonneg(s.drop_first());
    }
}

proof fn lemma_first_non_ws_prefix_stop(s: Seq<char>, i: int)
    requires
        0 <= i < s.len(),
        !is_ws_char(s[i]),
        forall|j: int| 0 <= j < i ==> is_ws_char(#[trigger] s[j]),
    ensures
        first_non_ws(s) == i,
    decreases i,
{
    if i > 0 {
        lemma_first_non_ws_prefix_stop(s.drop_first(), i - 1);
        assert(forall|j: int| 0 <= j < i - 1 ==> is_ws_char(#[trigger] s.drop_first()[j]));
    }
}

proof fn lemma_last_non_ws_suffix(s: Seq<char>, i: int)
    requires
        0 <= i < s.len(),
        forall|j: int| i <= j < s.len() ==> is_ws_char(#[trigger] s[j]),
    ensures
        last_non_ws(s) <= i,
    decreases s.len() - i,
{
    if i < s.len() - 1 {
        lemma_last_non_ws_suffix(s.drop_last(), i);
        assert(forall|j: int| i <= j < s.len() - 1 ==> is_ws_char(#[trigger] s.drop_last()[j]));
    } else {
        lemma_last_non_ws_le2(s.drop_last());
    }
}

proof fn lemma_last_non_ws_le2(s: Seq<char>)
    ensures
        last_non_ws(s) <= s.len(),
    decreases s.len(),
{
    if s.len() > 0 && is_ws_char(s.last()) {
        lemma_last_non_ws_le2(s.drop_last());
    }
}

proof fn lemma_last_non_ws_suffix_stop(s: Seq<char>, b: int)
    requires
        0 < b <= s.len(),
        !is_ws_char(s[b - 1]),
        forall|j: int| b <= j < s.len() ==> is_ws_char(#[trigger] s[j]),
    ensures
        last_non_ws(s) == b,
    decreases s.len(),
{
    if b == s.len() {
    } else {
        lemma_last_non_ws_suffix_stop(s.drop_last(), b);
        assert(forall|j: int| b <= j < s.len() - 1 ==> is_ws_char(#[trigger] s.drop_last()[j]));
    }
}

/// Appends every character of `s` to `out`.
pub fn push_str_chars(out: &mut Vec<char>, s: &str)
    ensures
        final(out)@ == old(out)@ + s@,
{
    let n = s.unicode_len();
    let mut i: usize = 0;
    while i < n
        invariant
            n == s@.len(),
            i <= n,
            out@ == old(out)@ + s@.take(i as int),
        decreases n - i,
    {
        out.push(s.get_char(i));
        proof {
            assert(s@.take(i + 1) =~= s@.take(i as int).push(s@[i as int]));
        }
        i += 1;
    }
    proof {
        assert(s@.take(n as int) =~= s@);
    }
}

} // verus!
