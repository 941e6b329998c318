//! The filter-list loader: turns the lines of a filter-list file into an
//! ordered list of name fragments. A line whose content starts with `//` is
//! dropped whole; on any other line everything from the first `//` on is
//! removed; the remainder is trimmed; empty remainders are dropped.
use vstd::prelude::*;

use crate::text::{
    find_sub, has_sub, lemma_occurs_in_slice, lemma_trim_idempotent, lemma_trimmed_is_slice,
    occurs_at, trim_str, trimmed,
};

verus! {

/// The two characters that open a comment.
pub open spec fn slashes() -> Seq<char> {
    seq!['/', '/']
}

/// `occurs_at` for the comment opener, spelled out by characters.
pub proof fn lemma_occ_slashes(s: Seq<char>, j: int)
    ensures
        occurs_at(s, slashes(), j) <==> (0 <= j && j + 2 <= s.len() && s[j] == '/' && s[j + 1]
            == '/'),
{
    if 0 <= j && j + 2 <= s.len() {
        if s[j] == '/' && s[j + 1] == '/' {
            assert(s.subrange(j, j + 2) =~= slashes());
        }
        if occurs_at(s, slashes(), j) {
            assert(s.subrange(j, j + 2)[0] == s[j]);
            assert(s.subrange(j, j + 2)[1] == s[j + 1]);
        }
    }
}

/// The content of a line before its first `//`, or the whole line when it
/// has none.
pub open spec fn before_comment(s: Seq<char>) -> Seq<char>
    decreases s.len(),
{
    if s.len() >= 2 && s[0] == '/' && s[1] == '/' {
        Seq::empty()
    } else if s.len() == 0 {
        s
    } else {
        seq![s[0]] + before_comment(s.drop_first())
    }
}

/// `before_comment` keeps a prefix of the line.
pub proof fn lemma_bc_prefix(s: Seq<char>)
    ensures
        before_comment(s).len() <= s.len(),
        forall|k: int| 0 <= k < before_comment(s).len() ==> before_comment(s)[k] == s[k],
    decreases s.len(),
{
    if s.len() >= 2 && s[0] == '/' && s[1] == '/' {
    } else if s.len() == 0 {
    } else {
        lemma_bc_prefix(s.drop_first());
        let b = before_comment(s);
        let br = before_comment(s.drop_first());
        assert forall|k: int| 0 <= k < b.len() implies b[k] == s[k] by {
            if k > 0 {
                assert(b[k] == br[k - 1]);
                assert(br[k - 1] == s.drop_first()[k - 1]);
            }
        }
    }
}

/// A line with no comment opener is kept whole.
pub proof fn lemma_bc_no_occ(s: Seq<char>)
    requires
        !has_sub(s, slashes()),
    ensures
        before_comment(s) == s,
    decreases s.len(),
{
    if s.len() >= 2 && s[0] == '/' && s[1] == '/' {
        lemma_occ_slashes(s, 0);
        assert(occurs_at(s, slashes(), 0));
    } else if s.len() == 0 {
    } else {
        assert forall|i: int| !occurs_at(s.drop_first(), slashes(), i) by {
            if occurs_at(s.drop_first(), slashes(), i) {
                lemma_occ_slashes(s.drop_first(), i);
                lemma_occ_slashes(s, i + 1);
                assert(occurs_at(s, slashes(), i + 1));
            }
        }
        lemma_bc_no_occ(s.drop_first());
        assert(seq![s[0]] + s.drop_first() =~= s);
    }
}

/// A line whose first comment opener stands at `i` is cut exactly there.
pub proof fn lemma_bc_first_occ(s: Seq<char>, i: int)
    requires
        occurs_at(s, slashes(), i),
        forall|j: int| 0 <= j < i ==> !occurs_at(s, slashes(), j),
    ensures
        before_comment(s) == s.subrange(0, i),
    decreases i,
{
    lemma_occ_slashes(s, i);
    if i == 0 {
        assert(s.len() >= 2 && s[0] == '/' && s[1] == '/');
        assert(s.subrange(0, 0) =~= Seq::<char>::empty());
    } else {
        lemma_occ_slashes(s, 0);
        assert(!(s.len() >= 2 && s[0] == '/' && s[1] == '/'));
        assert forall|j: int| 0 <= j < i - 1 implies !occurs_at(s.drop_first(), slashes(), j) by {
            lemma_occ_slashes(s.drop_first(), j);
            lemma_occ_slashes(s, j + 1);
        }
        lemma_occ_slashes(s.drop_first(), i - 1);
        assert(occurs_at(s.drop_first(), slashes(), i - 1));
        lemma_bc_first_occ(s.drop_first(), i - 1);
        assert(seq![s[0]] + s.drop_first().subrange(0, i - 1) =~= s.subrange(0, i));
    }
}

/// What `before_comment` keeps never holds a `//` itself.
pub proof fn lemma_bc_clean(s: Seq<char>)
    ensures
        !has_sub(before_comment(s), slashes()),
    decreases s.len(),
{
    let b = before_comment(s);
    if s.len() >= 2 && s[0] == '/' && s[1] == '/' {
        assert forall|i: int| !occurs_at(b, slashes(), i) by {
            lemma_occ_slashes(b, i);
        }
    } else if s.len() == 0 {
        assert forall|i: int| !occurs_at(b, slashes(), i) by {
            lemma_occ_slashes(b, i);
        }
    } else {
        lemma_bc_clean(s.drop_first());
        let br = before_comment(s.drop_first());
        assert forall|i: int| !occurs_at(b, slashes(), i) by {
            lemma_occ_slashes(b, i);
            if 0 <= i && i + 2 <= b.len() && b[i] == '/' && b[i + 1] == '/' {
                if i == 0 {
                    lemma_bc_prefix(s.drop_first());
                    assert(b[0] == s[0]);
                    assert(b[1] == br[0]);
                    assert(br[0] == s.drop_first()[0]);
                    assert(s.len() >= 2 && s[0] == '/' && s[1] == '/');
                } else {
                    assert(b[i] == br[i - 1]);
                    assert(b[i + 1] == br[i]);
                    lemma_occ_slashes(br, i - 1);
                    assert(occurs_at(br, slashes(), i - 1));
                }
            }
        }
    }
}

/// The parse of one line: `None` when the line is dropped, otherwise the
/// entry it yields.
pub open spec fn parsed_line(s: Seq<char>) -> Option<Seq<char>> {
    let kept = trimmed(before_comment(s));
    if kept.len() == 0 {
        None
    } else {
        Some(kept)
    }
}

/// The parse of a whole file: the entries of its lines, in order.
pub open spec fn parsed_lines(lines: Seq<Seq<char>>) -> Seq<Seq<char>>
    decreases lines.len(),
{
    if lines.len() == 0 {
        Seq::empty()
    } else {
        match parsed_line(lines[0]) {
            Some(e) => seq![e] + parsed_lines(lines.drop_first()),
            None => parsed_lines(lines.drop_first()),
        }
    }
}

/// Every entry a line yields is non-empty and free of `//`.
pub proof fn lemma_parsed_line_clean(s: Seq<char>, e: Seq<char>)
    requires
        parsed_line(s) == Some(e),
    ensures
        e.len() > 0,
        !has_sub(e, slashes()),
{
    let b = before_comment(s);
    lemma_bc_clean(s);
    lemma_trimmed_is_slice(b);
    let k = choose|k: int|
        0 <= k && k + trimmed(b).len() <= b.len() && trimmed(b) == #[trigger] b.subrange(
            k,
            k + trimmed(b).len(),
        );
    assert forall|i: int| !occurs_at(e, slashes(), i) by {
        if occurs_at(e, slashes(), i) {
            lemma_occurs_in_slice(b, k, k + e.len(), slashes(), i);
            assert(occurs_at(b, slashes(), k + i));
        }
    }
}

/// An entry a line yields parses to itself.
pub proof fn lemma_parsed_line_fixed(s: Seq<char>, e: Seq<char>)
    requires
        parsed_line(s) == Some(e),
    ensures
        parsed_line(e) == Some(e),
{
    lemma_parsed_line_clean(s, e);
    lemma_bc_no_occ(e);
    lemma_trim_idempotent(before_comment(s));
}

/// Re-applying the parse rules to an already-parsed line list yields the
/// same list: parsing is idempotent.
pub proof fn lemma_parse_idempotent(lines: Seq<Seq<char>>)
    ensures
        parsed_lines(parsed_lines(lines)) == parsed_lines(lines),
    decreases lines.len(),
{
    if lines.len() == 0 {
    } else {
        lemma_parse_idempotent(lines.drop_first());
        let rest = parsed_lines(lines.drop_first());
        match parsed_line(lines[0]) {
            Some(e) => {
                lemma_parsed_line_fixed(lines[0], e);
                let whole = seq![e] + rest;
                assert(whole[0] == e);
                assert(whole.drop_first() =~= rest);
                assert(parsed_lines(whole) == seq![e] + parsed_lines(rest));
            },
            None => {},
        }
    }
}

/// No entry of a parsed list is empty or holds a `//` sequence.
pub proof fn lemma_entries_clean(lines: Seq<Seq<char>>)
    ensures
        forall|k: int|
            0 <= k < parsed_lines(lines).len() ==> (#[trigger] parsed_lines(lines)[k]).len() > 0
                && !has_sub(parsed_lines(lines)[k], slashes()),
    decreases lines.len(),
{
    if lines.len() == 0 {
    } else {
        lemma_entries_clean(lines.drop_first());
        let rest = parsed_lines(lines.drop_first());
        match parsed_line(lines[0]) {
            Some(e) => {
                lemma_parsed_line_clean(lines[0], e);
                assert(forall|k: int|
                    1 <= k < parsed_lines(lines).len() ==> parsed_lines(lines)[k] == rest[k - 1]);
            },
            None => {},
        }
    }
}

/// Parse one line of a filter-list file.
pub fn parse_line(line: &str) -> (r: Option<String>)
    ensures
        match r {
            Some(t) => parsed_line(line@) == Some(t@),
            None => parsed_line(line@) is None,
        },
{
    proof {
        reveal_strlit("//");
        assert("//"@ =~= slashes());
    }
    let body: String = match find_sub(line, "//") {
        Some(i) => {
            proof {
                lemma_bc_first_occ(line@, i as int);
            }
            line.substring_char(0, i).to_owned()
        },
        None => {
            proof {
                lemma_bc_no_occ(line@);
            }
            line.to_owned()
        },
    };
    let t = trim_str(body.as_str());
    if t.as_str().unicode_len() == 0 {
        None
    } else {
        Some(t)
    }
}

/// Parse the lines of a filter-list file into the ordered list of filter
/// entries. Order is kept; duplicates stay as separate items.
pub fn parse_lines(lines: &Vec<String>) -> (r: Vec<String>)
    ensures
        r.deep_view() == parsed_lines(lines.deep_view()),
        forall|k: int|
            0 <= k < r.deep_view().len() ==> (#[trigger] r.deep_view()[k]).len() > 0 && !has_sub(
                r.deep_view()[k],
                slashes(),
            ),
{
    let ghost full: Seq<Seq<char>> = lines.deep_view();
    let mut out: Vec<String> = Vec::new();
    let mut i: usize = 0;
    proof {
        assert(full.skip(0) =~= full);
        assert(out.deep_view() + parsed_lines(full) =~= parsed_lines(full));
    }
    while i < lines.len()
        invariant
            full == lines.deep_view(),
            0 <= i <= lines.len(),
            full.len() == lines.len(),
            parsed_lines(full) == out.deep_view() + parsed_lines(full.skip(i as int)),
        decreases lines.len() - i,
    {
        let ghost pre = out.deep_view();
        let ghost rem = full.skip(i as int);
        proof {
            assert(rem[0] == full[i as int]);
            assert(rem.drop_first() =~= full.skip(i as int + 1));
            assert(lines[i as int]@ == full[i as int]);
        }
        match parse_line(&lines[i]) {
            Some(e) => {
                out.push(e);
                proof {
                    assert(out.deep_view() =~= pre + seq![e@]);
                    assert(pre + (seq![e@] + parsed_lines(full.skip(i as int + 1))) =~= (pre + seq![
                        e@,
                    ]) + parsed_lines(full.skip(i as int + 1)));
                }
            },
            None => {},
        }
        i += 1;
    }
    proof {
        assert(full.skip(lines.len() as int) =~= Seq::<Seq<char>>::empty());
        assert(out.deep_view() + Seq::<Seq<char>>::empty() =~= out.deep_view());
        lemma_entries_clean(full);
    }
    out
}

} // verus!
