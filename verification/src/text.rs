//! Character-level utilities: whitespace trimming, substring search,
//! file-name stem and extension splitting, and the case-insensitive
//! check for a ".zip" extension.
use vstd::prelude::*;

verus! {

/// The whitespace characters stripped from the ends of a filter-list line.
pub open spec fn wspace(c: char) -> bool {
    c == ' ' || c == '\t' || c == '\n' || c == '\r' || c == '\u{b}' || c == '\u{c}'
}

pub fn is_wspace(c: char) -> (r: bool)
    ensures
        r == wspace(c),
{
    c == ' ' || c == '\t' || c == '\n' || c == '\r' || c == '\u{b}' || c == '\u{c}'
}

/// What is left after removing every leading whitespace character.
pub open spec fn trim_front(s: Seq<char>) -> Seq<char>
    decreases s.len(),
{
    if s.len() > 0 && wspace(s[0]) {
        trim_front(s.drop_first())
    } else {
        s
    }
}

/// What is left after removing every trailing whitespace character.
pub open spec fn trim_back(s: Seq<char>) -> Seq<char>
    decreases s.len(),
{
    if s.len() > 0 && wspace(s.last()) {
        trim_back(s.drop_last())
    } else {
        s
    }
}

/// What is left after removing whitespace from both ends.
pub open spec fn trimmed(s: Seq<char>) -> Seq<char> {
    trim_back(trim_front(s))
}

/// `trim_front` drops some prefix: the result is a suffix of `s`.
pub proof fn lemma_trim_front_is_suffix(s: Seq<char>)
    ensures
        exists|k: int|
            0 <= k <= s.len() && trim_front(s) == #[trigger] s.subrange(k, s.len() as int),
    decreases s.len(),
{
    if s.len() > 0 && wspace(s[0]) {
        lemma_trim_front_is_suffix(s.drop_first());
        let k = choose|k: int|
            0 <= k <= s.drop_first().len() && trim_front(s.drop_first()) == #[trigger] s.drop_first().subrange(
                k,
                s.drop_first().len() as int,
            );
        assert(s.drop_first().subrange(k, s.drop_first().len() as int) =~= s.subrange(
            k + 1,
            s.len() as int,
        ));
        assert(trim_front(s) == s.subrange(k + 1, s.len() as int));
    } else {
        assert(s.subrange(0, s.len() as int) =~= s);
        assert(trim_front(s) == s.subrange(0, s.len() as int));
    }
}

/// `trim_back` keeps a prefix of `s`, and its last character is not whitespace.
pub proof fn lemma_trim_back_is_prefix(s: Seq<char>)
    ensures
        trim_back(s).len() <= s.len(),
        trim_back(s) == s.subrange(0, trim_back(s).len() as int),
        trim_back(s).len() > 0 ==> !wspace(trim_back(s).last()),
    decreases s.len(),
{
    if s.len() > 0 && wspace(s.last()) {
        lemma_trim_back_is_prefix(s.drop_last());
        assert(s.drop_last().subrange(0, trim_back(s).len() as int) =~= s.subrange(
            0,
            trim_back(s).len() as int,
        ));
    } else {
        assert(s.subrange(0, s.len() as int) =~= s);
    }
}

/// The first character left by `trim_front` is not whitespace.
pub proof fn lemma_trim_front_head(s: Seq<char>)
    ensures
        trim_front(s).len() > 0 ==> !wspace(trim_front(s)[0]),
    decreases s.len(),
{
    if s.len() > 0 && wspace(s[0]) {
        lemma_trim_front_head(s.drop_first());
    }
}

/// Trimming a second time changes nothing.
pub proof fn lemma_trim_idempotent(s: Seq<char>)
    ensures
        trimmed(trimmed(s)) == trimmed(s),
{
    let u = trim_front(s);
    let t = trim_back(u);
    lemma_trim_back_is_prefix(u);
    lemma_trim_front_head(s);
    if t.len() > 0 {
        assert(t[0] == u[0]);
        assert(!wspace(t[0]));
        assert(trim_front(t) == t);
        assert(!wspace(t.last()));
        assert(trim_back(t) == t);
    } else {
        assert(t =~= Seq::<char>::empty());
        assert(trim_front(t) == t);
        assert(trim_back(t) == t);
    }
}

/// The trimmed string is some contiguous slice of the original.
pub proof fn lemma_trimmed_is_slice(s: Seq<char>)
    ensures
        exists|k: int|
            0 <= k && k + trimmed(s).len() <= s.len() && trimmed(s) == #[trigger] s.subrange(
                k,
                k + trimmed(s).len(),
            ),
{
    let u = trim_front(s);
    let t = trim_back(u);
    lemma_trim_front_is_suffix(s);
    lemma_trim_back_is_prefix(u);
    let k = choose|k: int| 0 <= k <= s.len() && u == #[trigger] s.subrange(k, s.len() as int);
    assert(u.subrange(0, t.len() as int) =~= s.subrange(k, k + t.len()));
    assert(trimmed(s) == s.subrange(k, k + trimmed(s).len()));
}

/// Remove leading and trailing whitespace.
pub fn trim_str(s: &str) -> (r: String)
    ensures
        r@ == trimmed(s@),
{
    let n = s.unicode_len();
    proof {
        assert(s@.subrange(0, n as int) =~= s@);
    }
    let mut i: usize = 0;
    while i < n && is_wspace(s.get_char(i))
        invariant
            n == s@.len(),
            0 <= i <= n,
            trim_front(s@) == trim_front(s@.subrange(i as int, n as int)),
        decreases n - i,
    {
        proof {
            let sub = s@.subrange(i as int, n as int);
            assert(sub[0] == s@[i as int]);
            assert(sub.drop_first() =~= s@.subrange(i as int + 1, n as int));
        }
        i += 1;
    }
    proof {
        let sub = s@.subrange(i as int, n as int);
        if sub.len() > 0 {
            assert(sub[0] == s@[i as int]);
        }
        assert(trim_front(sub) == sub);
    }
    let mut j: usize = n;
    while j > i && is_wspace(s.get_char(j - 1))
        invariant
            n == s@.len(),
            0 <= i <= j <= n,
            trim_front(s@) == s@.subrange(i as int, n as int),
            trim_back(s@.subrange(i as int, n as int)) == trim_back(
                s@.subrange(i as int, j as int),
            ),
        decreases j,
    {
        proof {
            let sub = s@.subrange(i as int, j as int);
            assert(sub.last() == s@[j - 1]);
            assert(sub.drop_last() =~= s@.subrange(i as int, j as int - 1));
        }
        j -= 1;
    }
    proof {
        let sub = s@.subrange(i as int, j as int);
        if sub.len() > 0 {
            assert(sub.last() == s@[j - 1]);
        }
        assert(trim_back(sub) == sub);
    }
    s.substring_char(i, j).to_owned()
}

/// The pattern `pat` occurs in `text` starting at position `i`.
pub open spec fn occurs_at(text: Seq<char>, pat: Seq<char>, i: int) -> bool {
    0 <= i && i + pat.len() <= text.len() && text.subrange(i, i + pat.len()) == pat
}

/// The pattern occurs somewhere in `text`.
pub open spec fn has_sub(text: Seq<char>, pat: Seq<char>) -> bool {
    exists|i: int| occurs_at(text, pat, i)
}

/// An occurrence inside a slice of `s` is an occurrence in `s`.
pub proof fn lemma_occurs_in_slice(s: Seq<char>, a: int, b: int, pat: Seq<char>, i: int)
    requires
        0 <= a <= b <= s.len(),
        occurs_at(s.subrange(a, b), pat, i),
    ensures
        occurs_at(s, pat, a + i),
{
    assert(s.subrange(a + i, a + i + pat.len()) =~= s.subrange(a, b).subrange(i, i + pat.len()));
}

/// Find the first occurrence of `pat` in `text`, by character position.
pub fn find_sub(text: &str, pat: &str) -> (r: Option<usize>)
    ensures
        match r {
            Some(i) => occurs_at(text@, pat@, i as int) && forall|j: int|
                0 <= j < i ==> !occurs_at(text@, pat@, j),
            None => !has_sub(text@, pat@),
        },
{
    let n = text.unicode_len();
    let m = pat.unicode_len();
    if m > n {
        return None;
    }
    if m == 0 {
        proof {
            assert(text@.subrange(0, 0) =~= pat@);
        }
        return Some(0);
    }
    let mut i: usize = 0;
    while i <= n - m
        invariant
            n == text@.len(),
            m == pat@.len(),
            0 < m <= n,
            0 <= i <= n - m + 1,
            forall|j: int| 0 <= j < i ==> !occurs_at(text@, pat@, j),
        decreases n - m + 1 - i,
    {
        let mut k: usize = 0;
        let mut mismatch = false;
        while k < m && !mismatch
            invariant
                n == text@.len(),
                m == pat@.len(),
                0 <= i <= n - m,
                0 <= k <= m,
                !mismatch ==> forall|t: int| 0 <= t < k ==> text@[i + t] == pat@[t],
                mismatch ==> !occurs_at(text@, pat@, i as int),
            decreases m - k + (if mismatch { 0int } else { 1int }),
        {
            if text.get_char(i + k) != pat.get_char(k) {
                proof {
                    if occurs_at(text@, pat@, i as int) {
                        assert(text@.subrange(i as int, i + m as int)[k as int] == text@[i + k]);
                    }
                }
                mismatch = true;
            } else {
                k += 1;
            }
        }
        if !mismatch {
            proof {
                assert(text@.subrange(i as int, i + m as int) =~= pat@);
            }
            return Some(i);
        }
        i += 1;
    }
    proof {
        assert forall|j: int| occurs_at(text@, pat@, j) implies false by {
            assert(0 <= j && j + m <= n);
            assert(j < i);
        }
    }
    None
}

/// Character-for-character equality of two strings.
pub fn str_eq(a: &str, b: &str) -> (r: bool)
    ensures
        r == (a@ == b@),
{
    let n = a.unicode_len();
    let m = b.unicode_len();
    if n != m {
        proof {
            if a@ == b@ {
                assert(a@.len() == b@.len());
            }
        }
        return false;
    }
    let mut i: usize = 0;
    while i < n
        invariant
            n == a@.len(),
            n == b@.len(),
            0 <= i <= n,
            forall|k: int| 0 <= k < i ==> a@[k] == b@[k],
        decreases n - i,
    {
        if a.get_char(i) != b.get_char(i) {
            proof {
                if a@ == b@ {
                    assert(a@[i as int] == b@[i as int]);
                }
            }
            return false;
        }
        i += 1;
    }
    proof {
        assert(a@ =~= b@);
    }
    true
}

/// Position of the last `.` in a file name, or `-1` if there is none.
pub open spec fn last_dot(s: Seq<char>) -> int
    decreases s.len(),
{
    if s.len() == 0 {
        -1
    } else if s.last() == '.' {
        s.len() - 1
    } else {
        last_dot(s.drop_last())
    }
}

/// The stem of a file name: everything before the last `.`, except that a
/// name with no `.`, or whose only `.` leads it, is its own stem.
pub open spec fn spec_stem(s: Seq<char>) -> Seq<char> {
    if last_dot(s) <= 0 {
        s
    } else {
        s.subrange(0, last_dot(s))
    }
}

/// The extension of a file name: everything after the last `.`, or nothing
/// when the name has no `.` other than possibly a leading one.
pub open spec fn spec_ext(s: Seq<char>) -> Option<Seq<char>> {
    if last_dot(s) <= 0 {
        None
    } else {
        Some(s.subrange(last_dot(s) + 1, s.len() as int))
    }
}

/// Scan a file name for the position after its last `.`: returns `j` such
/// that `last_dot(s) == j - 1`, with `j == 0` meaning no dot at all.
fn scan_last_dot(s: &str) -> (j: usize)
    ensures
        0 <= j <= s@.len(),
        j == last_dot(s@) + 1,
{
    let n = s.unicode_len();
    proof {
        assert(s@.subrange(0, n as int) =~= s@);
    }
    let mut j: usize = n;
    while j > 0 && s.get_char(j - 1) != '.'
        invariant
            n == s@.len(),
            0 <= j <= n,
            last_dot(s@) == last_dot(s@.subrange(0, j as int)),
        decreases j,
    {
        proof {
            let sub = s@.subrange(0, j as int);
            assert(sub.last() == s@[j - 1]);
            assert(sub.drop_last() =~= s@.subrange(0, j as int - 1));
        }
        j -= 1;
    }
    proof {
        let sub = s@.subrange(0, j as int);
        if j > 0 {
            assert(sub.last() == s@[j - 1]);
            assert(last_dot(sub) == j - 1);
        }
    }
    j
}

/// The file stem: the name up to its last `.` (Rust path semantics for a
/// plain file name).
pub fn stem_of(name: &str) -> (r: String)
    ensures
        r@ == spec_stem(name@),
{
    let j = scan_last_dot(name);
    if j <= 1 {
        name.to_owned()
    } else {
        name.substring_char(0, j - 1).to_owned()
    }
}

/// The file extension, if any.
pub fn ext_of(name: &str) -> (r: Option<String>)
    ensures
        match r {
            Some(e) => spec_ext(name@) == Some(e@),
            None => spec_ext(name@) is None,
        },
{
    let j = scan_last_dot(name);
    if j <= 1 {
        None
    } else {
        Some(name.substring_char(j, name.unicode_len()).to_owned())
    }
}

/// The three characters of a "zip" extension, compared without regard to
/// ASCII case.
pub open spec fn zip_chars(e: Seq<char>) -> bool {
    e.len() == 3 && (e[0] == 'z' || e[0] == 'Z') && (e[1] == 'i' || e[1] == 'I') && (e[2] == 'p'
        || e[2] == 'P')
}

/// A file name carries an archive extension: its extension, compared
/// case-insensitively, is "zip".
pub open spec fn spec_is_zip_name(s: Seq<char>) -> bool {
    match spec_ext(s) {
        Some(e) => zip_chars(e),
        None => false,
    }
}

/// Does this file name end in a ".zip" extension, in any ASCII case?
pub fn is_zip_name(name: &str) -> (r: bool)
    ensures
        r == spec_is_zip_name(name@),
{
    match ext_of(name) {
        None => false,
        Some(e) => {
            let le = e.as_str().unicode_len();
            if le != 3 {
                false
            } else {
                let c0 = e.as_str().get_char(0);
                let c1 = e.as_str().get_char(1);
                let c2 = e.as_str().get_char(2);
                (c0 == 'z' || c0 == 'Z') && (c1 == 'i' || c1 == 'I') && (c2 == 'p' || c2 == 'P')
            }
        },
    }
}

} // verus!
