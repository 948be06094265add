use vstd::prelude::*;
use vstd::std_specs::iter::IteratorSpec;

verus! {

/// The character that opens a heading line, once per level of nesting.
pub const MARKER: char = '*';

/// Whether `c` has the Unicode White_Space property, the whitespace that
/// `str::trim` removes.
pub open spec fn is_white_space(c: char) -> bool {
    let n = c as u32;
    (0x09 <= n && n <= 0x0d) || n == 0x20 || n == 0x85 || n == 0xa0 || n == 0x1680 || (0x2000
        <= n && n <= 0x200a) || n == 0x2028 || n == 0x2029 || n == 0x202f || n == 0x205f || n
        == 0x3000
}

/// `s` without its leading whitespace.
pub open spec fn trim_start(s: Seq<char>) -> Seq<char>
    decreases s.len(),
{
    if s.len() > 0 && is_white_space(s[0]) {
        trim_start(s.drop_first())
    } else {
        s
    }
}

/// `s` without its trailing whitespace.
pub open spec fn trim_end(s: Seq<char>) -> Seq<char>
    decreases s.len(),
{
    if s.len() > 0 && is_white_space(s.last()) {
        trim_end(s.drop_last())
    } else {
        s
    }
}

/// `s` without leading and trailing whitespace.
pub open spec fn trim(s: Seq<char>) -> Seq<char> {
    trim_end(trim_start(s))
}

/// The number of marker characters that `s` starts with.
pub open spec fn marker_count(s: Seq<char>) -> nat
    decreases s.len(),
{
    if s.len() > 0 && s[0] == MARKER {
        1 + marker_count(s.drop_first())
    } else {
        0
    }
}

/// The title of a heading line: what follows its markers, trimmed.
pub open spec fn title_of(s: Seq<char>) -> Seq<char> {
    trim(s.subrange(marker_count(s) as int, s.len() as int))
}

/// The line that opens a heading of the given depth and title: the markers, one
/// space, then the title.
pub open spec fn heading_line(depth: nat, title: Seq<char>) -> Seq<char> {
    Seq::new(depth, |i: int| MARKER) + seq![' '] + title
}

/// Relies on String::push: appends `c` to the end of `s`.
#[verifier::external_body]
fn push_char(s: &mut String, c: char)
    ensures
        final(s)@ == old(s)@.push(c),
{
    s.push(c)
}

/// Whether `c` is whitespace, as `is_white_space` states.
pub fn is_white(c: char) -> (r: bool)
    ensures
        r == is_white_space(c),
{
    let n = c as u32;
    (0x09 <= n && n <= 0x0d) || n == 0x20 || n == 0x85 || n == 0xa0 || n == 0x1680 || (0x2000
        <= n && n <= 0x200a) || n == 0x2028 || n == 0x2029 || n == 0x202f || n == 0x205f || n
        == 0x3000
}

proof fn lemma_trim_start_skip(s: Seq<char>, a: int)
    requires
        0 <= a <= s.len(),
        forall|k: int| 0 <= k < a ==> is_white_space(#[trigger] s[k]),
    ensures
        trim_start(s) == trim_start(s.subrange(a, s.len() as int)),
    decreases a,
{
    if a > 0 {
        assert(s.drop_first() =~= s.subrange(1, s.len() as int));
        let t = s.drop_first();
        assert forall|k: int| 0 <= k < a - 1 implies is_white_space(#[trigger] t[k]) by {
            assert(t[k] == s[k + 1]);
        }
        lemma_trim_start_skip(t, a - 1);
        assert(t.subrange(a - 1, t.len() as int) =~= s.subrange(a, s.len() as int));
    } else {
        assert(s.subrange(0, s.len() as int) =~= s);
    }
}

proof fn lemma_trim_end_cut(s: Seq<char>, b: int)
    requires
        0 <= b <= s.len(),
        forall|k: int| b <= k < s.len() ==> is_white_space(#[trigger] s[k]),
    ensures
        trim_end(s) == trim_end(s.subrange(0, b)),
    decreases s.len() - b,
{
    if b < s.len() {
        let t = s.drop_last();
        lemma_trim_end_cut(t, b);
        assert(t.subrange(0, b) =~= s.subrange(0, b));
    } else {
        assert(s.subrange(0, b) =~= s);
    }
}

proof fn lemma_marker_count_prefix(s: Seq<char>, i: int)
    requires
        0 <= i <= s.len(),
        forall|k: int| 0 <= k < i ==> #[trigger] s[k] == MARKER,
    ensures
        marker_count(s) == i + marker_count(s.subrange(i, s.len() as int)),
    decreases i,
{
    if i > 0 {
        let t = s.drop_first();
        assert forall|k: int| 0 <= k < i - 1 implies #[trigger] t[k] == MARKER by {
            assert(t[k] == s[k + 1]);
        }
        lemma_marker_count_prefix(t, i - 1);
        assert(t.subrange(i - 1, t.len() as int) =~= s.subrange(i, s.len() as int));
    } else {
        assert(s.subrange(0, s.len() as int) =~= s);
    }
}

/// Classifies a line: the number of markers it starts with (its level; 0 for a
/// content line) and the rest of the line, trimmed (its title).
pub fn get_heading(line: &str) -> (r: (String, usize))
    ensures
        r.1 == marker_count(line@),
        r.0@ == title_of(line@),
{
    let chars = to_chars(line);
    let n = chars.len();
    let mut level: usize = 0;
    while level < n && chars[level] == MARKER
        invariant
            chars@ == line@,
            n == chars.len(),
            level <= n,
            forall|k: int| 0 <= k < level ==> #[trigger] chars@[k] == MARKER,
        decreases n - level,
    {
        level = level + 1;
    }
    proof {
        lemma_marker_count_prefix(line@, level as int);
        let rest = line@.subrange(level as int, n as int);
        if level < n {
            assert(rest[0] != MARKER);
        }
        assert(marker_count(rest) == 0);
    }
    let ghost rest = line@.subrange(level as int, n as int);
    let mut a: usize = level;
    while a < n && is_white(chars[a])
        invariant
            chars@ == line@,
            n == chars.len(),
            level <= a <= n,
            forall|k: int| level <= k < a ==> is_white_space(#[trigger] chars@[k]),
        decreases n - a,
    {
        a = a + 1;
    }
    let mut b: usize = n;
    while b > a && is_white(chars[b - 1])
        invariant
            chars@ == line@,
            n == chars.len(),
            a <= b <= n,
            forall|k: int| b <= k < n ==> is_white_space(#[trigger] chars@[k]),
        decreases b,
    {
        b = b - 1;
    }
    proof {
        assert forall|k: int| 0 <= k < a - level implies is_white_space(#[trigger] rest[k]) by {
            assert(rest[k] == chars@[level + k]);
        }
        lemma_trim_start_skip(rest, a - level);
        let mid = rest.subrange(a - level, rest.len() as int);
        assert(mid =~= line@.subrange(a as int, n as int));
        if a < n {
            assert(mid[0] == chars@[a as int]);
        }
        assert(trim_start(mid) == mid);
        assert forall|k: int| b - a <= k < mid.len() implies is_white_space(#[trigger] mid[k]) by {
            assert(mid[k] == chars@[a + k]);
        }
        lemma_trim_end_cut(mid, b - a);
        let core = mid.subrange(0, b - a);
        assert(core =~= line@.subrange(a as int, b as int));
        if b > a {
            assert(core.last() == chars@[b - 1]);
        }
        assert(trim_end(core) == core);
    }
    let mut title = String::new();
    let mut k: usize = a;
    while k < b
        invariant
            chars@ == line@,
            n == chars.len(),
            a <= k <= b <= n,
            title@ == line@.subrange(a as int, k as int),
        decreases b - k,
    {
        push_char(&mut title, chars[k]);
        k = k + 1;
        proof {
            assert(title@ =~= line@.subrange(a as int, k as int));
        }
    }
    (title, level)
}

/// The characters of `s`, in order.
pub fn to_chars(s: &str) -> (r: Vec<char>)
    ensures
        r@ == s@,
{
    let mut r: Vec<char> = Vec::new();
    let mut chars = s.chars();
    loop
        invariant
            r@ + chars.remaining() == s@,
            chars.obeys_prophetic_iter_laws(),
            chars.decrease() is Some,
        ensures
            r@ == s@,
        decreases chars.decrease()->0,
    {
        match chars.next() {
            Some(c) => {
                r.push(c);
            }
            None => {
                assert(r@ =~= r@ + chars.remaining());
                break;
            }
        }
    }
    r
}

} // verus!
