//! Character-level helpers shared by the caches, the translation providers
//! and the response parser: Unicode white space, trimming, whitespace
//! collapsing and substring search, each stated over `Seq<char>`.
use vstd::prelude::*;

verus! {

/// The Unicode `White_Space` property (the set `char::is_whitespace` tests).
pub open spec fn is_white_space(c: char) -> bool {
    let u = c as u32;
    ||| 0x9 <= u <= 0xD
    ||| u == 0x20
    ||| u == 0x85
    ||| u == 0xA0
    ||| u == 0x1680
    ||| 0x2000 <= u <= 0x200A
    ||| u == 0x2028
    ||| u == 0x2029
    ||| u == 0x202F
    ||| u == 0x205F
    ||| u == 0x3000
}

/// `s` with leading and trailing white space removed (what `str::trim` gives).
pub open spec fn trim_ws(s: Seq<char>) -> Seq<char>
    decreases s.len(),
{
    if s.len() > 0 && is_white_space(s[0]) {
        trim_ws(s.drop_first())
    } else if s.len() > 0 && is_white_space(s.last()) {
        trim_ws(s.drop_last())
    } else {
        s
    }
}

/// Every run of white space in `s` replaced by one `' '`.
pub open spec fn collapse_ws(s: Seq<char>) -> Seq<char>
    decreases s.len(),
{
    if s.len() == 0 {
        s
    } else {
        let prefix = collapse_ws(s.drop_last());
        let c = s.last();
        if !is_white_space(c) {
            prefix.push(c)
        } else if s.len() >= 2 && is_white_space(s[s.len() - 2]) {
            prefix
        } else {
            prefix.push(' ')
        }
    }
}

/// The normal form of a text: trimmed, and each inner white-space run
/// replaced by a single space. Case is preserved.
pub open spec fn normalized(s: Seq<char>) -> Seq<char> {
    collapse_ws(trim_ws(s))
}

/// A text already in normal form: no white space at either end, every white
/// space character is `' '`, and no two of them are adjacent.
pub open spec fn is_normal_form(s: Seq<char>) -> bool {
    &&& s.len() > 0 ==> !is_white_space(s[0]) && !is_white_space(s.last())
    &&& forall|i: int| 0 <= i < s.len() && is_white_space(#[trigger] s[i]) ==> s[i] == ' '
    &&& forall|i: int|
        0 <= i < s.len() - 1 && is_white_space(#[trigger] s[i]) ==> !is_white_space(s[i + 1])
}

/// All white space is `' '` and no two white-space characters are adjacent.
pub open spec fn single_spaced(s: Seq<char>) -> bool {
    &&& forall|i: int| 0 <= i < s.len() && is_white_space(#[trigger] s[i]) ==> s[i] == ' '
    &&& forall|i: int|
        0 <= i < s.len() - 1 && is_white_space(#[trigger] s[i]) ==> !is_white_space(s[i + 1])
}

/// A trimmed text is empty or starts and ends with a non-space character.
pub proof fn lemma_trim_ends(s: Seq<char>)
    ensures
        trim_ws(s).len() > 0 ==> !is_white_space(trim_ws(s)[0]) && !is_white_space(
            trim_ws(s).last(),
        ),
    decreases s.len(),
{
    if s.len() > 0 && is_white_space(s[0]) {
        lemma_trim_ends(s.drop_first());
    } else if s.len() > 0 && is_white_space(s.last()) {
        lemma_trim_ends(s.drop_last());
    }
}

/// Collapsing leaves single spaces, keeps the first character when it is
/// not white space, and ends in white space exactly when its input does.
pub proof fn lemma_collapse_shape(u: Seq<char>)
    ensures
        single_spaced(collapse_ws(u)),
        u.len() > 0 ==> collapse_ws(u).len() > 0 && (is_white_space(collapse_ws(u).last())
            == is_white_space(u.last())),
        u.len() > 0 && !is_white_space(u[0]) ==> collapse_ws(u)[0] == u[0],
        u.len() == 0 ==> collapse_ws(u).len() == 0,
    decreases u.len(),
{
    if u.len() > 0 {
        let p = u.drop_last();
        lemma_collapse_shape(p);
        let cp = collapse_ws(p);
        let out = collapse_ws(u);
        let c = u.last();
        if p.len() > 0 {
            assert(p[0] == u[0]);
            assert(p.last() == u[u.len() - 2]);
        }
        if !is_white_space(c) {
            assert(out == cp.push(c));
            assert forall|i: int| 0 <= i < out.len() - 1 && is_white_space(#[trigger] out[i]) implies !is_white_space(out[i + 1]) by {
                if i < cp.len() - 1 {
                    assert(out[i] == cp[i] && out[i + 1] == cp[i + 1]);
                }
            }
            assert forall|i: int| 0 <= i < out.len() && is_white_space(#[trigger] out[i]) implies out[i] == ' ' by {
                if i < cp.len() {
                    assert(out[i] == cp[i]);
                }
            }
        } else if u.len() >= 2 && is_white_space(u[u.len() - 2]) {
        } else {
            assert(out == cp.push(' '));
            assert(is_white_space(' '));
            assert forall|i: int| 0 <= i < out.len() - 1 && is_white_space(#[trigger] out[i]) implies !is_white_space(out[i + 1]) by {
                if i < cp.len() - 1 {
                    assert(out[i] == cp[i] && out[i + 1] == cp[i + 1]);
                } else {
                    assert(out[i] == cp.last());
                }
            }
            assert forall|i: int| 0 <= i < out.len() && is_white_space(#[trigger] out[i]) implies out[i] == ' ' by {
                if i < cp.len() {
                    assert(out[i] == cp[i]);
                }
            }
        }
    }
}

/// Collapsing a single-spaced text changes nothing.
pub proof fn lemma_collapse_fixed(t: Seq<char>)
    requires
        single_spaced(t),
    ensures
        collapse_ws(t) == t,
    decreases t.len(),
{
    if t.len() > 0 {
        let p = t.drop_last();
        assert(single_spaced(p)) by {
            assert forall|i: int| 0 <= i < p.len() && is_white_space(#[trigger] p[i]) implies p[i] == ' ' by {
                assert(p[i] == t[i]);
            }
            assert forall|i: int| 0 <= i < p.len() - 1 && is_white_space(#[trigger] p[i]) implies !is_white_space(p[i + 1]) by {
                assert(p[i] == t[i] && p[i + 1] == t[i + 1]);
            }
        }
        lemma_collapse_fixed(p);
        if is_white_space(t.last()) {
            assert(t.last() == ' ');
            if t.len() >= 2 {
                assert(is_white_space(t[t.len() - 2]) ==> !is_white_space(t[t.len() - 1]));
            }
        }
        assert(p.push(t.last()) == t);
    }
}

/// The normal form of any text is in normal form.
pub proof fn law_normalized_is_normal_form(s: Seq<char>)
    ensures
        is_normal_form(normalized(s)),
{
    let u = trim_ws(s);
    lemma_trim_ends(s);
    lemma_collapse_shape(u);
}

/// A text in normal form is its own normal form.
pub proof fn law_normal_form_is_fixed(t: Seq<char>)
    requires
        is_normal_form(t),
    ensures
        normalized(t) == t,
{
    if t.len() > 0 {
        assert(!is_white_space(t[0]));
        assert(!is_white_space(t.last()));
    }
    assert(trim_ws(t) == t);
    lemma_collapse_fixed(t);
}

/// Normalizing twice is the same as normalizing once.
pub proof fn law_normalize_idempotent(s: Seq<char>)
    ensures
        normalized(normalized(s)) == normalized(s),
{
    law_normalized_is_normal_form(s);
    law_normal_form_is_fixed(normalized(s));
}

/// The decimal digit character for `d` (`d < 10`).
pub open spec fn digit_char(d: nat) -> char {
    seq!['0', '1', '2', '3', '4', '5', '6', '7', '8', '9'][d as int]
}

/// The decimal representation of `n`, without leading zeros.
pub open spec fn decimal(n: nat) -> Seq<char>
    decreases n,
{
    if n < 10 {
        seq![digit_char(n)]
    } else {
        decimal(n / 10).push(digit_char(n % 10))
    }
}

/// Appends the decimal representation of `n` to `v`.
pub fn push_decimal(v: &mut Vec<char>, n: u64)
    ensures
        final(v)@ == old(v)@ + decimal(n as nat),
    decreases n,
{
    if n >= 10 {
        push_decimal(v, n / 10);
    }
    let d = n % 10;
    let c = if d == 0 {
        '0'
    } else if d == 1 {
        '1'
    } else if d == 2 {
        '2'
    } else if d == 3 {
        '3'
    } else if d == 4 {
        '4'
    } else if d == 5 {
        '5'
    } else if d == 6 {
        '6'
    } else if d == 7 {
        '7'
    } else if d == 8 {
        '8'
    } else {
        '9'
    };
    let ghost before = v@;
    v.push(c);
    assert(c == digit_char(d as nat));
    proof {
        if n >= 10 {
            assert(v@ =~= old(v)@ + decimal(n as nat));
        } else {
            assert(v@ =~= old(v)@ + decimal(n as nat));
        }
    }
}

/// Appends the characters of `s` to `v`.
pub fn push_str(v: &mut Vec<char>, s: &str)
    ensures
        final(v)@ == old(v)@ + s@,
{
    let cs = chars_of(s);
    let mut i: usize = 0;
    while i < cs.len()
        invariant
            i <= cs.len(),
            cs@ == s@,
            v@ == old(v)@ + cs@.take(i as int),
        decreases cs.len() - i,
    {
        v.push(cs[i]);
        assert(cs@.take(i + 1) == cs@.take(i as int).push(cs@[i as int]));
        i = i + 1;
    }
    assert(cs@.take(cs.len() as int) == cs@);
}

/// Tests the Unicode `White_Space` property of `c`.
pub fn is_whitespace_char(c: char) -> (r: bool)
    ensures
        r == is_white_space(c),
{
    let u = c as u32;
    (0x9 <= u && u <= 0xD) || u == 0x20 || u == 0x85 || u == 0xA0 || u == 0x1680 || (0x2000
        <= u && u <= 0x200A) || u == 0x2028 || u == 0x2029 || u == 0x202F || u == 0x205F || u
        == 0x3000
}

/// The characters of `s`, in order.
pub fn chars_of(s: &str) -> (v: Vec<char>)
    ensures
        v@ == s@,
{
    let mut v: Vec<char> = Vec::new();
    for c in it: s.chars()
        invariant
            v@ == it.seq().take(it.index()),
    {
        v.push(c);
    }
    v
}

/// Appends one character to a string (`String::push`).
#[verifier::external_body]
pub(crate) fn push_char(s: &mut String, c: char)
    ensures
        final(s)@ == old(s)@.push(c),
{
    s.push(c);
}

/// The string whose characters are `cs[from..to]`.
pub fn string_from_chars(cs: &Vec<char>, from: usize, to: usize) -> (s: String)
    requires
        from <= to <= cs.len(),
    ensures
        s@ == cs@.subrange(from as int, to as int),
{
    let mut s = String::new();
    let mut i = from;
    while i < to
        invariant
            from <= i <= to <= cs.len(),
            s@ == cs@.subrange(from as int, i as int),
        decreases to - i,
    {
        push_char(&mut s, cs[i]);
        assert(cs@.subrange(from as int, i + 1) == cs@.subrange(from as int, i as int).push(
            cs@[i as int],
        ));
        i = i + 1;
    }
    s
}

/// Whether two strings hold the same characters.
pub fn str_equal(a: &str, b: &str) -> (same: bool)
    ensures
        same == (a@ == b@),
{
    let x = chars_of(a);
    let y = chars_of(b);
    if x.len() != y.len() {
        return false;
    }
    let mut i: usize = 0;
    while i < x.len()
        invariant
            x@ == a@,
            y@ == b@,
            x.len() == y.len(),
            i <= x.len(),
            forall|j: int| 0 <= j < i ==> x@[j] == y@[j],
        decreases x.len() - i,
    {
        if x[i] != y[i] {
            return false;
        }
        i = i + 1;
    }
    assert(x@ =~= y@);
    true
}

/// Bounds `[start, end)` of `cs[from..to]` with white space trimmed from both ends.
pub fn trim_bounds(cs: &Vec<char>, from: usize, to: usize) -> (r: (usize, usize))
    requires
        from <= to <= cs.len(),
    ensures
        from <= r.0 <= r.1 <= to,
        cs@.subrange(r.0 as int, r.1 as int) == trim_ws(cs@.subrange(from as int, to as int)),
{
    let mut start = from;
    while start < to && is_whitespace_char(cs[start])
        invariant
            from <= start <= to <= cs.len(),
            trim_ws(cs@.subrange(start as int, to as int)) == trim_ws(
                cs@.subrange(from as int, to as int),
            ),
        decreases to - start,
    {
        let ghost sub = cs@.subrange(start as int, to as int);
        assert(sub.drop_first() == cs@.subrange(start + 1, to as int));
        start = start + 1;
    }
    let mut end = to;
    while end > start && is_whitespace_char(cs[end - 1])
        invariant
            from <= start <= end <= to <= cs.len(),
            start < to ==> !is_white_space(cs@[start as int]),
            trim_ws(cs@.subrange(start as int, end as int)) == trim_ws(
                cs@.subrange(from as int, to as int),
            ),
        decreases end - start,
    {
        let ghost sub = cs@.subrange(start as int, end as int);
        assert(sub.drop_last() == cs@.subrange(start as int, end - 1));
        assert(sub[0] == cs@[start as int]);
        end = end - 1;
    }
    let ghost fin = cs@.subrange(start as int, end as int);
    assert(fin.len() > 0 ==> fin[0] == cs@[start as int]);
    assert(trim_ws(fin) == fin);
    (start, end)
}

/// `cs[from..to]` with every white-space run collapsed to one `' '`.
pub fn collapse_range(cs: &Vec<char>, from: usize, to: usize) -> (s: String)
    requires
        from <= to <= cs.len(),
    ensures
        s@ == collapse_ws(cs@.subrange(from as int, to as int)),
{
    let mut out = String::new();
    let mut last_ws = false;
    let mut i = from;
    assert(cs@.subrange(from as int, from as int) =~= Seq::<char>::empty());
    while i < to
        invariant
            from <= i <= to <= cs.len(),
            out@ == collapse_ws(cs@.subrange(from as int, i as int)),
            last_ws == (i > from && is_white_space(cs@[i - 1])),
        decreases to - i,
    {
        let ch = cs[i];
        let ghost sub = cs@.subrange(from as int, i + 1);
        assert(sub.drop_last() == cs@.subrange(from as int, i as int));
        assert(sub.last() == ch);
        assert(sub.len() >= 2 ==> sub[sub.len() - 2] == cs@[i - 1]);
        if is_whitespace_char(ch) {
            if !last_ws {
                push_char(&mut out, ' ');
                last_ws = true;
            }
        } else {
            push_char(&mut out, ch);
            last_ws = false;
        }
        i = i + 1;
    }
    out
}

/// `pat` occurs in `s` starting at index `i`.
pub open spec fn matches_at(s: Seq<char>, pat: Seq<char>, i: int) -> bool {
    0 <= i && i + pat.len() <= s.len() && s.subrange(i, i + pat.len()) == pat
}

/// Index of the first occurrence of `pat` in `s` (what `str::find` locates).
#[verifier::opaque]
pub open spec fn first_match(s: Seq<char>, pat: Seq<char>) -> Option<int> {
    if exists|i: int| matches_at(s, pat, i) {
        Some(
            choose|i: int|
                matches_at(s, pat, i) && forall|j: int| 0 <= j < i ==> !matches_at(s, pat, j),
        )
    } else {
        None
    }
}

/// A match with no earlier match is the first match.
pub proof fn lemma_first_match_is_least(s: Seq<char>, pat: Seq<char>, i: int)
    requires
        matches_at(s, pat, i),
        forall|j: int| 0 <= j < i ==> !matches_at(s, pat, j),
    ensures
        first_match(s, pat) == Some(i),
{
    reveal(first_match);
    let k = choose|k: int| matches_at(s, pat, k) && forall|j: int| 0 <= j < k ==> !matches_at(s, pat, j);
    assert(matches_at(s, pat, k) && forall|j: int| 0 <= j < k ==> !matches_at(s, pat, j));
    if k < i {
        assert(!matches_at(s, pat, k));
    } else if k > i {
        assert(!matches_at(s, pat, i));
    }
}

/// Finds the first occurrence of `pat` in `cs[from..]`, as an absolute index.
pub fn find_from(cs: &Vec<char>, from: usize, pat: &Vec<char>) -> (r: Option<usize>)
    requires
        from <= cs.len(),
    ensures
        match r {
            Some(p) => from <= p && matches_at(
                cs@.subrange(from as int, cs.len() as int),
                pat@,
                p - from,
            ) && first_match(cs@.subrange(from as int, cs.len() as int), pat@) == Some(p - from),
            None => first_match(cs@.subrange(from as int, cs.len() as int), pat@) is None,
        },
{
    let ghost s = cs@.subrange(from as int, cs.len() as int);
    if pat.len() > cs.len() - from {
        assert forall|j: int| !matches_at(s, pat@, j) by {}
        reveal(first_match);
        return None;
    }
    let last = cs.len() - pat.len();
    let mut i = from;
    while i <= last
        invariant
            from <= i,
            last + pat.len() == cs.len(),
            from <= last + 1,
            s == cs@.subrange(from as int, cs.len() as int),
            forall|j: int| 0 <= j < i - from ==> !matches_at(s, pat@, j),
        decreases last + 1 - i,
    {
        let mut k: usize = 0;
        let mut ok = true;
        while k < pat.len()
            invariant
                i + pat.len() <= cs.len(),
                k <= pat.len(),
                ok == (forall|m: int| 0 <= m < k ==> cs@[i + m] == pat@[m]),
            decreases pat.len() - k,
        {
            if cs[i + k] != pat[k] {
                ok = false;
            }
            k = k + 1;
        }
        proof {
            let off = i - from;
            if ok {
                assert(s.subrange(off, off + pat.len()) =~= pat@);
            } else {
                let m = choose|m: int| 0 <= m < pat.len() && cs@[i + m] != pat@[m];
                assert(s.subrange(off, off + pat.len())[m] != pat@[m]);
            }
        }
        if ok {
            proof {
                lemma_first_match_is_least(s, pat@, i - from);
            }
            return Some(i);
        }
        i = i + 1;
    }
    assert forall|j: int| !matches_at(s, pat@, j) by {
        if 0 <= j && j + pat.len() <= s.len() {
            assert(j < i - from);
        }
    }
    reveal(first_match);
    None
}

} // verus!
