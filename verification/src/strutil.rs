use vstd::prelude::*;

verus! {

/// The whitespace characters that configuration parsing treats as
/// insignificant around tokens.
pub open spec fn is_space(c: char) -> bool {
    c == ' ' || c == '\t' || c == '\r' || c == '\n'
}

/// Executable counterpart of `is_space`.
pub fn space_char(c: char) -> (r: bool)
    ensures
        r == is_space(c),
{
    c == ' ' || c == '\t' || c == '\r' || c == '\n'
}

/// Character-for-character string equality, stated over the views.
pub fn str_eq(a: &str, b: &str) -> (r: bool)
    ensures
        r == (a@ == b@),
{
    let alen = a.unicode_len();
    let blen = b.unicode_len();
    if alen != blen {
        proof {
            assert(a@ != b@) by {
                if a@ == b@ {
                    assert(a@.len() == b@.len());
                }
            }
        }
        return false;
    }
    let mut i: usize = 0;
    while i < alen
        invariant
            alen == a@.len(),
            blen == b@.len(),
            alen == blen,
            i <= alen,
            forall|j: int| 0 <= j < i ==> a@[j] == b@[j],
        decreases alen - i,
    {
        if a.get_char(i) != b.get_char(i) {
            proof {
                assert(a@ != b@) by {
                    if a@ == b@ {
                        assert(a@[i as int] == b@[i as int]);
                    }
                }
            }
            return false;
        }
        i += 1;
    }
    proof {
        assert(a@ =~= b@);
    }
    true
}

/// `s` begins with `p`.
pub open spec fn starts_with_spec(s: Seq<char>, p: Seq<char>) -> bool {
    p.len() <= s.len() && s.subrange(0, p.len() as int) == p
}

/// `s` ends with `p`.
pub open spec fn ends_with_spec(s: Seq<char>, p: Seq<char>) -> bool {
    p.len() <= s.len() && s.subrange(s.len() - p.len(), s.len() as int) == p
}

pub fn starts_with(s: &str, p: &str) -> (r: bool)
    ensures
        r == starts_with_spec(s@, p@),
{
    let slen = s.unicode_len();
    let plen = p.unicode_len();
    if plen > slen {
        return false;
    }
    let head = s.substring_char(0, plen);
    str_eq(head, p)
}

pub fn ends_with(s: &str, p: &str) -> (r: bool)
    ensures
        r == ends_with_spec(s@, p@),
{
    let slen = s.unicode_len();
    let plen = p.unicode_len();
    if plen > slen {
        return false;
    }
    let tail = s.substring_char(slen - plen, slen);
    str_eq(tail, p)
}

/// `s` without its leading whitespace.
pub open spec fn trim_front(s: Seq<char>) -> Seq<char>
    decreases s.len(),
{
    if s.len() > 0 && is_space(s[0]) {
        trim_front(s.drop_first())
    } else {
        s
    }
}

/// `s` without its trailing whitespace.
pub open spec fn trim_back(s: Seq<char>) -> Seq<char>
    decreases s.len(),
{
    if s.len() > 0 && is_space(s.last()) {
        trim_back(s.drop_last())
    } else {
        s
    }
}

/// `s` without leading or trailing whitespace.
pub open spec fn trim_spec(s: Seq<char>) -> Seq<char> {
    trim_back(trim_front(s))
}

proof fn lemma_trim_front_subrange(s: Seq<char>, i: int)
    requires
        0 <= i <= s.len(),
        forall|j: int| 0 <= j < i ==> is_space(s[j]),
        i == s.len() || !is_space(s[i]),
    ensures
        trim_front(s) == s.subrange(i, s.len() as int),
    decreases i,
{
    if i == 0 {
        assert(s.subrange(0, s.len() as int) =~= s);
    } else {
        assert(is_space(s[0]));
        lemma_trim_front_subrange(s.drop_first(), i - 1);
        assert(s.drop_first().subrange(i - 1, s.drop_first().len() as int) =~= s.subrange(
            i,
            s.len() as int,
        ));
    }
}

proof fn lemma_trim_back_subrange(s: Seq<char>, j: int)
    requires
        0 <= j <= s.len(),
        forall|k: int| j <= k < s.len() ==> is_space(s[k]),
        j == 0 || !is_space(s[j - 1]),
    ensures
        trim_back(s) == s.subrange(0, j),
    decreases s.len() - j,
{
    if j == s.len() {
        if s.len() > 0 && is_space(s.last()) {
            assert(!is_space(s[j - 1]));
        }
        assert(s.subrange(0, s.len() as int) =~= s);
    } else {
        assert(is_space(s.last()));
        lemma_trim_back_subrange(s.drop_last(), j);
        assert(s.drop_last().subrange(0, j) =~= s.subrange(0, j));
    }
}

/// Remove leading and trailing whitespace, as configuration parsing does
/// around every token.
pub fn trim(s: &str) -> (r: &str)
    ensures
        r@ == trim_spec(s@),
{
    let len = s.unicode_len();
    let mut i: usize = 0;
    while i < len && space_char(s.get_char(i))
        invariant
            len == s@.len(),
            i <= len,
            forall|j: int| 0 <= j < i ==> is_space(s@[j]),
        decreases len - i,
    {
        i += 1;
    }
    let mut j: usize = len;
    while j > i && space_char(s.get_char(j - 1))
        invariant
            len == s@.len(),
            i <= j <= len,
            forall|k: int| j <= k < len ==> is_space(s@[k]),
        decreases j,
    {
        j -= 1;
    }
    let r = s.substring_char(i, j);
    proof {
        lemma_trim_front_subrange(s@, i as int);
        let t = s@.subrange(i as int, s@.len() as int);
        lemma_trim_back_subrange(t, j - i);
        assert(t.subrange(0, j - i) =~= s@.subrange(i as int, j as int));
    }
    r
}

/// Index of the first occurrence of `c` in `s`, or `s.len()` if there is
/// none.
pub open spec fn find_idx(s: Seq<char>, c: char) -> int
    decreases s.len(),
{
    if s.len() == 0 {
        0
    } else if s[0] == c {
        0
    } else {
        1 + find_idx(s.drop_first(), c)
    }
}

pub proof fn lemma_find_idx_bounds(s: Seq<char>, c: char)
    ensures
        0 <= find_idx(s, c) <= s.len(),
        find_idx(s, c) < s.len() ==> s[find_idx(s, c)] == c,
        forall|j: int| 0 <= j < find_idx(s, c) ==> s[j] != c,
    decreases s.len(),
{
    if s.len() > 0 && s[0] != c {
        lemma_find_idx_bounds(s.drop_first(), c);
        assert forall|j: int| 0 <= j < find_idx(s, c) implies s[j] != c by {
            if j > 0 {
                assert(s.drop_first()[j - 1] == s[j]);
            }
        }
    }
}

pub proof fn lemma_find_idx_of(s: Seq<char>, c: char, i: int)
    requires
        0 <= i <= s.len(),
        forall|j: int| 0 <= j < i ==> s[j] != c,
        i == s.len() || s[i] == c,
    ensures
        find_idx(s, c) == i,
    decreases i,
{
    if s.len() == 0 {
    } else if i == 0 {
        if s.len() > 0 && s[0] != c {
            lemma_find_idx_bounds(s.drop_first(), c);
        }
    } else {
        lemma_find_idx_of(s.drop_first(), c, i - 1);
    }
}

/// The pieces of `s` between occurrences of `c`: one piece more than there
/// are occurrences, in order.
pub open spec fn split_spec(s: Seq<char>, c: char) -> Seq<Seq<char>>
    decreases s.len(),
{
    let i = find_idx(s, c);
    if i < 0 || i >= s.len() {
        seq![s]
    } else {
        seq![s.subrange(0, i)] + split_spec(s.subrange(i + 1, s.len() as int), c)
    }
}

pub proof fn lemma_split_spec_len(s: Seq<char>, c: char)
    ensures
        split_spec(s, c).len() >= 1,
    decreases s.len(),
{
    lemma_find_idx_bounds(s, c);
    let i = find_idx(s, c);
    if i < s.len() {
        lemma_split_spec_len(s.subrange(i + 1, s.len() as int), c);
    }
}

/// The views of a sequence of owned strings.
pub open spec fn views_of(ps: Seq<String>) -> Seq<Seq<char>> {
    ps.map_values(|p: String| p@)
}

/// Split `s` at every occurrence of `c`.
pub fn split_char(s: &str, c: char) -> (r: Vec<String>)
    ensures
        views_of(r@) == split_spec(s@, c),
{
    let len = s.unicode_len();
    let mut parts: Vec<String> = Vec::new();
    let mut start: usize = 0;
    let mut i: usize = 0;
    proof {
        assert(s@.subrange(0, len as int) =~= s@);
        assert(views_of(parts@) + split_spec(s@, c) =~= split_spec(s@, c));
    }
    while i < len
        invariant
            len == s@.len(),
            start <= i <= len,
            forall|j: int| start <= j < i ==> s@[j] != c,
            split_spec(s@, c) == views_of(parts@) + split_spec(
                s@.subrange(start as int, len as int),
                c,
            ),
        decreases len - i,
    {
        if s.get_char(i) == c {
            let piece = s.substring_char(start, i);
            let ghost prev = parts@;
            let ghost rest = s@.subrange(start as int, len as int);
            parts.push(piece.to_owned());
            proof {
                lemma_find_idx_of(rest, c, i - start);
                assert(rest.subrange(0, i - start) =~= s@.subrange(start as int, i as int));
                assert(rest.subrange(i - start + 1, rest.len() as int) =~= s@.subrange(
                    i + 1,
                    len as int,
                ));
                assert(split_spec(rest, c) == seq![piece@] + split_spec(
                    s@.subrange(i + 1, len as int),
                    c,
                ));
                assert(views_of(parts@) =~= views_of(prev).push(piece@));
                assert(views_of(prev).push(piece@) + split_spec(
                    s@.subrange(i + 1, len as int),
                    c,
                ) =~= views_of(prev) + split_spec(rest, c));
            }
            start = i + 1;
        }
        i += 1;
    }
    let piece = s.substring_char(start, len);
    let ghost prev = parts@;
    let ghost rest = s@.subrange(start as int, len as int);
    parts.push(piece.to_owned());
    proof {
        lemma_find_idx_of(rest, c, len - start);
        assert(split_spec(rest, c) == seq![rest]);
        assert(rest =~= piece@);
        assert(views_of(parts@) =~= views_of(prev).push(piece@));
        assert(views_of(prev).push(piece@) =~= views_of(prev) + split_spec(rest, c));
        assert(views_of(parts@) == split_spec(s@, c));
    }
    parts
}

/// A line with a trailing carriage return stripped.
pub open spec fn strip_cr(l: Seq<char>) -> Seq<char> {
    if l.len() > 0 && l.last() == '\r' {
        l.drop_last()
    } else {
        l
    }
}

/// The lines of `s`: pieces between newlines, each newline-terminated piece
/// with a trailing carriage return removed, and no final empty piece when
/// the text ends with a newline.
pub open spec fn lines_spec(s: Seq<char>) -> Seq<Seq<char>> {
    let parts = split_spec(s, '\n');
    let full = parts.take(parts.len() - 1).map_values(|l: Seq<char>| strip_cr(l));
    if parts.last().len() == 0 {
        full
    } else {
        full.push(parts.last())
    }
}

/// Split `s` into lines, as `lines_spec` describes.
pub fn lines(s: &str) -> (r: Vec<String>)
    ensures
        views_of(r@) == lines_spec(s@),
{
    let parts = split_char(s, '\n');
    proof {
        lemma_split_spec_len(s@, '\n');
    }
    let n = parts.len();
    let mut out: Vec<String> = Vec::new();
    let mut i: usize = 0;
    while i < n - 1
        invariant
            n == parts@.len(),
            n >= 1,
            views_of(parts@) == split_spec(s@, '\n'),
            i <= n - 1,
            views_of(out@).len() == i,
            forall|k: int| 0 <= k < i ==> views_of(out@)[k] == strip_cr(views_of(parts@)[k]),
        decreases n - 1 - i,
    {
        let p = &parts[i];
        let pl = p.as_str().unicode_len();
        let stripped: String = if pl > 0 && p.as_str().get_char(pl - 1) == '\r' {
            p.as_str().substring_char(0, pl - 1).to_owned()
        } else {
            p.clone()
        };
        proof {
            let pv = views_of(parts@)[i as int];
            assert(pv == p@);
            if pl > 0 && p@.last() == '\r' {
                assert(p@.subrange(0, pl - 1) =~= p@.drop_last());
            }
            assert(stripped@ == strip_cr(pv));
        }
        let ghost prev = out@;
        out.push(stripped);
        proof {
            assert(views_of(out@) =~= views_of(prev).push(out@.last()@));
        }
        i += 1;
    }
    let last = &parts[n - 1];
    if last.as_str().unicode_len() > 0 {
        let ghost prev = out@;
        out.push(last.clone());
        proof {
            assert(views_of(out@) =~= views_of(prev).push(out@.last()@));
        }
    }
    proof {
        let parts_v = split_spec(s@, '\n');
        let full = parts_v.take(parts_v.len() - 1).map_values(|l: Seq<char>| strip_cr(l));
        assert(parts_v.last() == last@);
        if parts_v.last().len() == 0 {
            assert(views_of(out@) =~= full);
        } else {
            assert(views_of(out@) =~= full.push(parts_v.last()));
        }
    }
    out
}

/// `sep` occurs in `s` at position `i`.
pub open spec fn match_at(s: Seq<char>, sep: Seq<char>, i: int) -> bool {
    0 <= i && i + sep.len() <= s.len() && s.subrange(i, i + sep.len() as int) == sep
}

/// Index of the first occurrence of `sep` in `s`, or `-1` if there is none.
pub open spec fn find_sub_idx(s: Seq<char>, sep: Seq<char>) -> int
    decreases s.len(),
{
    if match_at(s, sep, 0) {
        0
    } else if s.len() == 0 {
        -1
    } else {
        let r = find_sub_idx(s.drop_first(), sep);
        if r < 0 {
            -1
        } else {
            1 + r
        }
    }
}

proof fn lemma_match_at_shift(s: Seq<char>, sep: Seq<char>, j: int)
    requires
        s.len() > 0,
        0 <= j,
    ensures
        match_at(s.drop_first(), sep, j) == match_at(s, sep, j + 1),
{
    if j + 1 + sep.len() <= s.len() {
        assert(s.drop_first().subrange(j, j + sep.len() as int) =~= s.subrange(
            j + 1,
            j + 1 + sep.len() as int,
        ));
    }
}

pub proof fn lemma_find_sub_idx_none(s: Seq<char>, sep: Seq<char>)
    requires
        forall|j: int| !match_at(s, sep, j),
    ensures
        find_sub_idx(s, sep) == -1,
    decreases s.len(),
{
    if s.len() > 0 {
        assert forall|j: int| !match_at(s.drop_first(), sep, j) by {
            if 0 <= j {
                lemma_match_at_shift(s, sep, j);
            }
        }
        lemma_find_sub_idx_none(s.drop_first(), sep);
    }
}

pub proof fn lemma_find_sub_idx_at(s: Seq<char>, sep: Seq<char>, i: int)
    requires
        match_at(s, sep, i),
        forall|j: int| 0 <= j < i ==> !match_at(s, sep, j),
    ensures
        find_sub_idx(s, sep) == i,
    decreases i,
{
    if i == 0 {
    } else {
        assert(!match_at(s, sep, 0));
        assert(s.len() > 0);
        lemma_match_at_shift(s, sep, i - 1);
        assert forall|j: int| 0 <= j < i - 1 implies !match_at(s.drop_first(), sep, j) by {
            lemma_match_at_shift(s, sep, j);
        }
        lemma_find_sub_idx_at(s.drop_first(), sep, i - 1);
    }
}

/// Split `s` around the first occurrence of `sep`, if any.
pub fn split_once_str<'a>(s: &'a str, sep: &str) -> (r: Option<(&'a str, &'a str)>)
    ensures
        match r {
            Some((a, b)) => {
                let i = a@.len() as int;
                &&& match_at(s@, sep@, i)
                &&& forall|j: int| 0 <= j < i ==> !match_at(s@, sep@, j)
                &&& a@ == s@.subrange(0, i)
                &&& b@ == s@.subrange(i + sep@.len(), s@.len() as int)
            },
            None => forall|j: int| !match_at(s@, sep@, j),
        },
{
    let slen = s.unicode_len();
    let seplen = sep.unicode_len();
    if seplen > slen {
        return None;
    }
    if seplen == 0 {
        let a = s.substring_char(0, 0);
        proof {
            assert(s@.subrange(0, 0) =~= sep@);
            assert(s@.subrange(0, s@.len() as int) =~= s@);
        }
        return Some((a, s));
    }
    let mut i: usize = 0;
    while i <= slen - seplen
        invariant
            slen == s@.len(),
            seplen == sep@.len(),
            0 < seplen <= slen,
            i <= slen - seplen + 1,
            forall|j: int| 0 <= j < i ==> !match_at(s@, sep@, j),
        decreases slen - i,
    {
        let sub = s.substring_char(i, i + seplen);
        if str_eq(sub, sep) {
            let a = s.substring_char(0, i);
            let b = s.substring_char(i + seplen, slen);
            return Some((a, b));
        }
        i += 1;
    }
    None
}

/// Some text in `l` reads `t`.
pub open spec fn has_text(l: Seq<Seq<char>>, t: Seq<char>) -> bool {
    exists|i: int| 0 <= i < l.len() && l[i] == t
}

/// Linear search of `list` for the text `t`.
pub fn contains_str(list: &Vec<String>, t: &str) -> (r: bool)
    ensures
        r == has_text(views_of(list@), t@),
{
    let mut i: usize = 0;
    while i < list.len()
        invariant
            i <= list@.len(),
            forall|j: int| 0 <= j < i ==> views_of(list@)[j] != t@,
        decreases list@.len() - i,
    {
        if str_eq(list[i].as_str(), t) {
            assert(views_of(list@)[i as int] == t@);
            return true;
        }
        i += 1;
    }
    false
}

} // verus!
