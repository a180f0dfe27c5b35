//! Character-span utilities for the lexer: substring search, whitespace
//! classification, tag spans and the standalone-line rule.
//!
//! Every executable routine here returns exactly the value of its spec-level
//! counterpart, so the lexer built on top of them is deterministic down to
//! the character.
use vstd::prelude::*;
use vstd::string::StrSliceExecFns;

verus! {

/// Whitespace for tag trimming and standalone detection: space, horizontal
/// tab, carriage return and newline.
pub open spec fn is_ws_char(c: char) -> bool {
    c == ' ' || c == '\t' || c == '\r' || c == '\n'
}

/// Horizontal whitespace: everything of [is_ws_char] except the newline.
pub open spec fn is_space_char(c: char) -> bool {
    is_ws_char(c) && c != '\n'
}

/// Indentation characters: space and horizontal tab only.
pub open spec fn is_indent_char(c: char) -> bool {
    c == ' ' || c == '\t'
}

/// `pat` occurs in `s` starting at position `i`.
pub open spec fn occurs_at(s: Seq<char>, pat: Seq<char>, i: int) -> bool {
    0 <= i && i + pat.len() <= s.len() && s.subrange(i, i + pat.len() as int) == pat
}

/// Position of the first occurrence of `pat` in `s` at or after `from`.
pub open spec fn find_from(s: Seq<char>, pat: Seq<char>, from: int) -> Option<int>
    decreases s.len() - from,
{
    if from < 0 {
        find_from(s, pat, 0)
    } else if pat.len() == 0 {
        if from <= s.len() {
            Some(from)
        } else {
            None
        }
    } else if from + pat.len() > s.len() {
        None
    } else if occurs_at(s, pat, from) {
        Some(from)
    } else {
        find_from(s, pat, from + 1)
    }
}

/// Position of the first character `c` in `s` at or after `from`.
pub open spec fn find_char_from(s: Seq<char>, c: char, from: int) -> Option<int>
    decreases s.len() - from,
{
    if from < 0 {
        find_char_from(s, c, 0)
    } else if from >= s.len() {
        None
    } else if s[from] == c {
        Some(from)
    } else {
        find_char_from(s, c, from + 1)
    }
}

/// Position of the last occurrence of `pat` that lies entirely inside
/// `s[..end]`.
pub open spec fn rfind_before(s: Seq<char>, pat: Seq<char>, end: int) -> Option<int>
    decreases end,
{
    if end < 0 || end > s.len() || pat.len() == 0 || end < pat.len() {
        None
    } else if occurs_at(s, pat, end - pat.len()) {
        Some(end - pat.len())
    } else {
        rfind_before(s, pat, end - 1)
    }
}

/// Position of the last character `c` strictly before `end`.
pub open spec fn rfind_char_before(s: Seq<char>, c: char, end: int) -> Option<int>
    decreases end,
{
    if end <= 0 || end > s.len() {
        None
    } else if s[end - 1] == c {
        Some(end - 1)
    } else {
        rfind_char_before(s, c, end - 1)
    }
}

/// Position of the first non-whitespace character at or after `from`.
pub open spec fn first_non_ws(s: Seq<char>, from: int) -> Option<int>
    decreases s.len() - from,
{
    if from < 0 {
        first_non_ws(s, 0)
    } else if from >= s.len() {
        None
    } else if is_ws_char(s[from]) {
        first_non_ws(s, from + 1)
    } else {
        Some(from)
    }
}

/// Position of the first whitespace character at or after `from`, or the
/// length of `s` if there is none.
pub open spec fn first_ws_from(s: Seq<char>, from: int) -> int
    decreases s.len() - from,
{
    if from < 0 {
        first_ws_from(s, 0)
    } else if from >= s.len() {
        s.len() as int
    } else if is_ws_char(s[from]) {
        from
    } else {
        first_ws_from(s, from + 1)
    }
}

/// All characters of `s[start..end]` are horizontal whitespace.
pub open spec fn is_space_range(s: Seq<char>, start: int, end: int) -> bool {
    forall|i: int| start <= i < end ==> is_space_char(#[trigger] s[i])
}

/// All characters of `s[start..end]` are indentation characters.
pub open spec fn is_indent_range(s: Seq<char>, start: int, end: int) -> bool {
    forall|i: int| start <= i < end ==> is_indent_char(#[trigger] s[i])
}

/// Start of the trimmed window: first position in `[start, end)` holding a
/// non-whitespace character, or `end`.
pub open spec fn trim_start_from(s: Seq<char>, start: int, end: int) -> int
    decreases end - start,
{
    if start >= end {
        end
    } else if is_ws_char(s[start]) {
        trim_start_from(s, start + 1, end)
    } else {
        start
    }
}

/// End of the trimmed window: position after the last non-whitespace
/// character in `[start, end)`, or `start`.
pub open spec fn trim_end_until(s: Seq<char>, start: int, end: int) -> int
    decreases end - start,
{
    if end <= start {
        start
    } else if is_ws_char(s[end - 1]) {
        trim_end_until(s, start, end - 1)
    } else {
        end
    }
}

/// The window `s[start..end]` with surrounding whitespace removed.
pub open spec fn trimmed(s: Seq<char>, start: int, end: int) -> Seq<char> {
    let a = trim_start_from(s, start, end);
    let b = trim_end_until(s, a, end);
    s.subrange(a, b)
}

/// A found occurrence starts no earlier than `from` and really is one.
pub proof fn lemma_find_from_props(s: Seq<char>, pat: Seq<char>, from: int)
    ensures
        match find_from(s, pat, from) {
            Some(i) => i >= from && occurs_at(s, pat, i),
            None => true,
        },
    decreases s.len() - from,
{
    if from < 0 {
        lemma_find_from_props(s, pat, 0);
    } else if pat.len() == 0 {
        if from <= s.len() {
            assert(s.subrange(from, from) =~= pat);
        }
    } else if from + pat.len() > s.len() {
    } else if occurs_at(s, pat, from) {
    } else {
        lemma_find_from_props(s, pat, from + 1);
    }
}

/// A found character position is in range and holds the character.
pub proof fn lemma_find_char_from_props(s: Seq<char>, c: char, from: int)
    ensures
        match find_char_from(s, c, from) {
            Some(i) => i >= from && 0 <= i < s.len() && s[i] == c,
            None => true,
        },
    decreases s.len() - from,
{
    if from < 0 {
        lemma_find_char_from_props(s, c, 0);
    } else if from >= s.len() {
    } else if s[from] == c {
    } else {
        lemma_find_char_from_props(s, c, from + 1);
    }
}

/// A found character position is the first one: nothing before it holds
/// the character, and a miss means no position does.
pub proof fn lemma_find_char_from_min(s: Seq<char>, c: char, from: int)
    ensures
        match find_char_from(s, c, from) {
            Some(i) => forall|j: int| from <= j < i && 0 <= j ==> (#[trigger] s[j]) != c,
            None => forall|j: int| from <= j < s.len() && 0 <= j ==> (#[trigger] s[j]) != c,
        },
    decreases s.len() - from,
{
    if from < 0 {
        lemma_find_char_from_min(s, c, 0);
        lemma_find_char_from_props(s, c, 0);
    } else if from >= s.len() {
    } else if s[from] == c {
    } else {
        lemma_find_char_from_min(s, c, from + 1);
    }
}

/// A backwards-found occurrence lies inside `s[..end]`.
pub proof fn lemma_rfind_before_props(s: Seq<char>, pat: Seq<char>, end: int)
    ensures
        match rfind_before(s, pat, end) {
            Some(i) => i + pat.len() <= end && occurs_at(s, pat, i),
            None => true,
        },
    decreases end,
{
    if end < 0 || end > s.len() || pat.len() == 0 || end < pat.len() {
    } else if occurs_at(s, pat, end - pat.len()) {
    } else {
        lemma_rfind_before_props(s, pat, end - 1);
    }
}

/// A backwards-found character lies inside `s[..end]` and is the character.
pub proof fn lemma_rfind_char_before_props(s: Seq<char>, c: char, end: int)
    ensures
        match rfind_char_before(s, c, end) {
            Some(i) => 0 <= i < end && i < s.len() && s[i] == c,
            None => true,
        },
    decreases end,
{
    if end <= 0 || end > s.len() {
    } else if s[end - 1] == c {
    } else {
        lemma_rfind_char_before_props(s, c, end - 1);
    }
}

/// The first non-whitespace position is in range and not whitespace.
pub proof fn lemma_first_non_ws_props(s: Seq<char>, from: int)
    ensures
        match first_non_ws(s, from) {
            Some(i) => i >= from && 0 <= i < s.len() && !is_ws_char(s[i]),
            None => true,
        },
    decreases s.len() - from,
{
    if from < 0 {
        lemma_first_non_ws_props(s, 0);
    } else if from >= s.len() {
    } else if is_ws_char(s[from]) {
        lemma_first_non_ws_props(s, from + 1);
    }
}

/// Exec whitespace test, equal to [is_ws_char].
pub fn is_ws(c: char) -> (r: bool)
    ensures
        r == is_ws_char(c),
{
    c == ' ' || c == '\t' || c == '\r' || c == '\n'
}

/// Exec horizontal-whitespace test, equal to [is_space_char].
pub fn is_space_c(c: char) -> (r: bool)
    ensures
        r == is_space_char(c),
{
    c == ' ' || c == '\t' || c == '\r'
}

/// Exec indentation test, equal to [is_indent_char].
pub fn is_indent_c(c: char) -> (r: bool)
    ensures
        r == is_indent_char(c),
{
    c == ' ' || c == '\t'
}

/// Does `pat` occur in `s` at position `i`?
pub fn occurs_at_exec(s: &str, pat: &str, i: usize) -> (r: bool)
    requires
        i + pat@.len() <= s@.len(),
    ensures
        r == occurs_at(s@, pat@, i as int),
{
    let s_len = s.unicode_len();
    let pat_len = pat.unicode_len();
    let mut j: usize = 0;
    while j < pat_len
        invariant
            0 <= j <= pat_len,
            pat_len == pat@.len(),
            s_len == s@.len(),
            i + pat_len <= s_len,
            forall|k: int| 0 <= k < j ==> s@[i + k] == pat@[k],
        decreases pat_len - j,
    {
        if s.get_char(i + j) != pat.get_char(j) {
            assert(s@.subrange(i as int, i + pat@.len() as int)[j as int] != pat@[j as int]);
            return false;
        }
        j += 1;
    }
    assert(s@.subrange(i as int, i + pat@.len() as int) =~= pat@);
    true
}

/// First occurrence of `pat` at or after `from`, as [find_from].
pub fn find_str_from(s: &str, pat: &str, from: usize) -> (r: Option<usize>)
    ensures
        match r {
            Some(i) => find_from(s@, pat@, from as int) == Some(i as int),
            None => find_from(s@, pat@, from as int) is None,
        },
    decreases s@.len() - from,
{
    let s_len = s.unicode_len();
    let pat_len = pat.unicode_len();
    if from > s_len {
        return None;
    }
    if pat_len == 0 {
        return Some(from);
    }
    if pat_len > s_len - from {
        return None;
    }
    if occurs_at_exec(s, pat, from) {
        return Some(from);
    }
    find_str_from(s, pat, from + 1)
}

/// First position of character `c` at or after `from`, as [find_char_from].
pub fn find_char_exec(s: &str, c: char, from: usize) -> (r: Option<usize>)
    ensures
        match r {
            Some(i) => find_char_from(s@, c, from as int) == Some(i as int),
            None => find_char_from(s@, c, from as int) is None,
        },
    decreases s@.len() - from,
{
    let s_len = s.unicode_len();
    if from >= s_len {
        return None;
    }
    if s.get_char(from) == c {
        return Some(from);
    }
    find_char_exec(s, c, from + 1)
}

/// Last occurrence of `pat` inside `s[..end]`, as [rfind_before].
pub fn rfind_str_before(s: &str, pat: &str, end: usize) -> (r: Option<usize>)
    requires
        end <= s@.len(),
    ensures
        match r {
            Some(i) => rfind_before(s@, pat@, end as int) == Some(i as int),
            None => rfind_before(s@, pat@, end as int) is None,
        },
    decreases end,
{
    let pat_len = pat.unicode_len();
    if pat_len == 0 || end < pat_len {
        return None;
    }
    if occurs_at_exec(s, pat, end - pat_len) {
        return Some(end - pat_len);
    }
    rfind_str_before(s, pat, end - 1)
}

/// Last position of character `c` strictly before `end`, as
/// [rfind_char_before].
pub fn rfind_char_exec(s: &str, c: char, end: usize) -> (r: Option<usize>)
    requires
        end <= s@.len(),
    ensures
        match r {
            Some(i) => rfind_char_before(s@, c, end as int) == Some(i as int),
            None => rfind_char_before(s@, c, end as int) is None,
        },
    decreases end,
{
    if end == 0 {
        return None;
    }
    if s.get_char(end - 1) == c {
        return Some(end - 1);
    }
    rfind_char_exec(s, c, end - 1)
}

/// First non-whitespace position at or after `from`, as [first_non_ws].
pub fn first_non_ws_exec(s: &str, from: usize) -> (r: Option<usize>)
    ensures
        match r {
            Some(i) => first_non_ws(s@, from as int) == Some(i as int),
            None => first_non_ws(s@, from as int) is None,
        },
    decreases s@.len() - from,
{
    let s_len = s.unicode_len();
    if from >= s_len {
        return None;
    }
    if is_ws(s.get_char(from)) {
        first_non_ws_exec(s, from + 1)
    } else {
        Some(from)
    }
}

/// First whitespace position at or after `from`, as [first_ws_from].
pub fn first_ws_exec(s: &str, from: usize) -> (r: usize)
    requires
        from <= s@.len(),
    ensures
        r == first_ws_from(s@, from as int),
        from <= r <= s@.len(),
    decreases s@.len() - from,
{
    let s_len = s.unicode_len();
    if from >= s_len {
        return s_len;
    }
    if is_ws(s.get_char(from)) {
        from
    } else {
        first_ws_exec(s, from + 1)
    }
}

/// All of `s[start..end]` is horizontal whitespace, as [is_space_range].
pub fn is_space_range_exec(s: &str, start: usize, end: usize) -> (r: bool)
    requires
        start <= end <= s@.len(),
    ensures
        r == is_space_range(s@, start as int, end as int),
{
    let mut i: usize = start;
    while i < end
        invariant
            start <= i <= end <= s@.len(),
            forall|k: int| start <= k < i ==> is_space_char(#[trigger] s@[k]),
        decreases end - i,
    {
        if !is_space_c(s.get_char(i)) {
            return false;
        }
        i += 1;
    }
    true
}

/// All of `s[start..end]` is indentation, as [is_indent_range].
pub fn is_indent_range_exec(s: &str, start: usize, end: usize) -> (r: bool)
    requires
        start <= end <= s@.len(),
    ensures
        r == is_indent_range(s@, start as int, end as int),
{
    let mut i: usize = start;
    while i < end
        invariant
            start <= i <= end <= s@.len(),
            forall|k: int| start <= k < i ==> is_indent_char(#[trigger] s@[k]),
        decreases end - i,
    {
        if !is_indent_c(s.get_char(i)) {
            return false;
        }
        i += 1;
    }
    true
}

/// The window `s[start..end]` with surrounding whitespace removed, as an
/// owned string equal to [trimmed].
pub fn trimmed_exec(s: &str, start: usize, end: usize) -> (r: String)
    requires
        start <= end <= s@.len(),
    ensures
        r@ == trimmed(s@, start as int, end as int),
{
    let a = trim_start_exec(s, start, end);
    let b = trim_end_exec(s, a, end);
    s.substring_char(a, b).to_owned()
}

/// Exec counterpart of [trim_start_from].
pub fn trim_start_exec(s: &str, start: usize, end: usize) -> (r: usize)
    requires
        start <= end <= s@.len(),
    ensures
        r == trim_start_from(s@, start as int, end as int),
        start <= r <= end,
    decreases end - start,
{
    if start >= end {
        end
    } else if is_ws(s.get_char(start)) {
        trim_start_exec(s, start + 1, end)
    } else {
        start
    }
}

/// The sigils whose tags may stand alone on a line: section open and close,
/// inverted section, partial, parent, block, comment and delimiter change.
pub open spec fn is_sigil_char(c: char) -> bool {
    c == '#' || c == '^' || c == '/' || c == '>' || c == '=' || c == '!' || c == '$' || c == '<'
}

/// Exec sigil test, equal to [is_sigil_char].
pub fn is_sigil_c(c: char) -> (r: bool)
    ensures
        r == is_sigil_char(c),
{
    c == '#' || c == '^' || c == '/' || c == '>' || c == '=' || c == '!' || c == '$' || c == '<'
}

/// A strippable tag opens at `i`: the open delimiter occurs there and the
/// first non-whitespace character after it is a strippable sigil.
pub open spec fn is_standalone_open_at(s: Seq<char>, od: Seq<char>, i: int) -> bool {
    occurs_at(s, od, i) && match first_non_ws(s, i + od.len()) {
        Some(j) => is_sigil_char(s[j]),
        None => false,
    }
}

/// Exec test for [is_standalone_open_at], given that the open delimiter is
/// already known to occur at `i`.
pub fn is_standalone_open_exec(s: &str, od: &str, i: usize) -> (r: bool)
    requires
        occurs_at(s@, od@, i as int),
    ensures
        r == is_standalone_open_at(s@, od@, i as int),
{
    let s_len = s.unicode_len();
    match first_non_ws_exec(s, i + od.unicode_len()) {
        Some(j) => {
            proof {
                lemma_first_non_ws_props(s@, i + od@.len());
            }
            is_sigil_c(s.get_char(j))
        },
        None => false,
    }
}

/// One pass of the standalone scan, from an open delimiter found at
/// `od_pos`: `pos` is the position up to which the line is known to be
/// blank, `after` the best answer found so far.
pub open spec fn standalone_from(
    s: Seq<char>,
    od: Seq<char>,
    cd: Seq<char>,
    pos: int,
    after: int,
    od_pos: int,
) -> int
    decreases s.len() - od_pos,
        when 0 <= od_pos <= s.len() && od.len() >= 1 && cd.len() >= 1
        via standalone_from_dec
{
    if !is_space_range(s, pos, od_pos) {
        after
    } else if !is_standalone_open_at(s, od, od_pos) {
        after
    } else {
        match find_from(s, cd, od_pos + od.len()) {
            None => after,
            Some(cd_pos) => {
                let cd_end = cd_pos + cd.len() as int;
                let x0 = find_from(s, od, cd_end);
                let x1 = find_char_from(s, '\n', cd_end);
                match (x0, x1) {
                    (Some(o), Some(e)) => if e < o {
                        if !is_space_range(s, cd_end, e) {
                            after
                        } else if !is_space_range(s, e + 1, o) {
                            e + 1
                        } else {
                            standalone_from(s, od, cd, e + 1, e + 1, o)
                        }
                    } else {
                        if !is_space_range(s, cd_end, o) {
                            after
                        } else {
                            standalone_from(s, od, cd, cd_end, after, o)
                        }
                    },
                    (Some(o), None) => if !is_space_range(s, cd_end, o) {
                        after
                    } else {
                        standalone_from(s, od, cd, cd_end, after, o)
                    },
                    (None, Some(e)) => if !is_space_range(s, cd_end, e) {
                        after
                    } else {
                        e + 1
                    },
                    (None, None) => if is_space_range(s, cd_end, s.len() as int) {
                        s.len() as int
                    } else {
                        after
                    },
                }
            },
        }
    }
}

#[via_fn]
proof fn standalone_from_dec(
    s: Seq<char>,
    od: Seq<char>,
    cd: Seq<char>,
    pos: int,
    after: int,
    od_pos: int,
) {
    lemma_find_from_props(s, cd, od_pos + od.len());
    if let Some(cd_pos) = find_from(s, cd, od_pos + od.len()) {
        let cd_end = cd_pos + cd.len() as int;
        lemma_find_from_props(s, od, cd_end);
        lemma_find_char_from_props(s, '\n', cd_end);
    }
}

/// Position just past a maximal standalone run at the start of `s`:
/// whitespace, strippable tags, and a terminating newline or the end of the
/// text. Zero when the start of `s` is no standalone run.
pub open spec fn span_standalone_spec(s: Seq<char>, od: Seq<char>, cd: Seq<char>) -> int {
    if od.len() == 0 || cd.len() == 0 {
        0
    } else {
        match find_from(s, od, 0) {
            None => 0,
            Some(od0) => standalone_from(s, od, cd, 0, 0, od0),
        }
    }
}

/// Exec counterpart of [standalone_from].
fn standalone_from_exec(s: &str, od: &str, cd: &str, pos: usize, after: usize, od_pos: usize) -> (r:
    usize)
    requires
        od@.len() >= 1,
        cd@.len() >= 1,
        pos <= od_pos <= s@.len(),
        after <= s@.len(),
    ensures
        r == standalone_from(s@, od@, cd@, pos as int, after as int, od_pos as int),
        r <= s@.len(),
    decreases s@.len() - od_pos,
{
    let s_len = s.unicode_len();
    if !is_space_range_exec(s, pos, od_pos) {
        return after;
    }
    if !(occurs_at_exec_in(s, od, od_pos) && is_standalone_open_exec(s, od, od_pos)) {
        return after;
    }
    let od_len = od.unicode_len();
    let cd_len = cd.unicode_len();
    match find_str_from(s, cd, od_pos + od_len) {
        None => after,
        Some(cd_pos) => {
            proof {
                lemma_find_from_props(s@, cd@, od_pos + od@.len());
            }
            let cd_end = cd_pos + cd_len;
            let x0 = find_str_from(s, od, cd_end);
            let x1 = find_char_exec(s, '\n', cd_end);
            proof {
                lemma_find_from_props(s@, od@, cd_end as int);
                lemma_find_char_from_props(s@, '\n', cd_end as int);
            }
            match (x0, x1) {
                (Some(o), Some(e)) => if e < o {
                    if !is_space_range_exec(s, cd_end, e) {
                        after
                    } else if !is_space_range_exec(s, e + 1, o) {
                        e + 1
                    } else {
                        standalone_from_exec(s, od, cd, e + 1, e + 1, o)
                    }
                } else {
                    if !is_space_range_exec(s, cd_end, o) {
                        after
                    } else {
                        standalone_from_exec(s, od, cd, cd_end, after, o)
                    }
                },
                (Some(o), None) => if !is_space_range_exec(s, cd_end, o) {
                    after
                } else {
                    standalone_from_exec(s, od, cd, cd_end, after, o)
                },
                (None, Some(e)) => if !is_space_range_exec(s, cd_end, e) {
                    after
                } else {
                    e + 1
                },
                (None, None) => if is_space_range_exec(s, cd_end, s_len) {
                    s_len
                } else {
                    after
                },
            }
        },
    }
}

/// Does the open delimiter occur at `i`? Bounds-checked variant of
/// [occurs_at_exec].
pub fn occurs_at_exec_in(s: &str, pat: &str, i: usize) -> (r: bool)
    requires
        i <= s@.len(),
    ensures
        r == occurs_at(s@, pat@, i as int),
{
    let s_len = s.unicode_len();
    let pat_len = pat.unicode_len();
    if pat_len > s_len - i {
        return false;
    }
    occurs_at_exec(s, pat, i)
}

/// Exec counterpart of [span_standalone_spec].
pub fn span_standalone(s: &str, od: &str, cd: &str) -> (r: usize)
    requires
        od@.len() >= 1,
        cd@.len() >= 1,
    ensures
        r == span_standalone_spec(s@, od@, cd@),
        r <= s@.len(),
{
    match find_str_from(s, od, 0) {
        None => 0,
        Some(od0) => {
            proof {
                lemma_find_from_props(s@, od@, 0);
            }
            standalone_from_exec(s, od, cd, 0, 0, od0)
        },
    }
}

/// The span of the tag that opens at the start of `s`: the trimmed tag
/// interior and the position just past the matching close delimiter. The
/// effective close delimiter is extended with `}` for a triple-brace tag and
/// with `=` for a delimiter-change tag. Nothing when no close is found.
pub open spec fn span_tag_spec(s: Seq<char>, od: Seq<char>, cd: Seq<char>) -> Option<
    (Seq<char>, int),
> {
    let odl = od.len() as int;
    if s.len() <= odl {
        None
    } else {
        let c = s[odl];
        let eff = if c == '{' {
            seq!['}'] + cd
        } else if c == '=' {
            seq!['='] + cd
        } else {
            cd
        };
        match find_from(s, eff, odl) {
            None => None,
            Some(p) => Some((trimmed(s, odl, p), p + eff.len())),
        }
    }
}

/// An occurrence in the tail of `s` is an occurrence in `s`, shifted.
pub proof fn lemma_occurs_subrange(s: Seq<char>, pat: Seq<char>, pos: int)
    requires
        0 <= pos <= s.len(),
    ensures
        occurs_at(s.subrange(pos, s.len() as int), pat, 0) == occurs_at(s, pat, pos),
{
    let tail = s.subrange(pos, s.len() as int);
    if pat.len() <= s.len() - pos {
        assert(tail.subrange(0, pat.len() as int) =~= s.subrange(pos, pos + pat.len()));
    }
}

/// When nothing is found, no occurrence exists anywhere past `from`.
pub proof fn lemma_find_from_none(s: Seq<char>, pat: Seq<char>, from: int)
    requires
        find_from(s, pat, from) is None,
    ensures
        forall|j: int| j >= from ==> !occurs_at(s, pat, j),
    decreases s.len() - from,
{
    if from < 0 {
        lemma_find_from_none(s, pat, 0);
    } else if pat.len() == 0 {
        if from <= s.len() {
        }
    } else if from + pat.len() > s.len() {
    } else if occurs_at(s, pat, from) {
    } else {
        lemma_find_from_none(s, pat, from + 1);
    }
}

/// The standalone scan stays inside the text.
pub proof fn lemma_standalone_from_bounds(
    s: Seq<char>,
    od: Seq<char>,
    cd: Seq<char>,
    pos: int,
    after: int,
    od_pos: int,
)
    requires
        od.len() >= 1,
        cd.len() >= 1,
        0 <= od_pos <= s.len(),
        0 <= after <= s.len(),
    ensures
        0 <= standalone_from(s, od, cd, pos, after, od_pos) <= s.len(),
    decreases s.len() - od_pos,
{
    if is_space_range(s, pos, od_pos) && is_standalone_open_at(s, od, od_pos) {
        lemma_find_from_props(s, cd, od_pos + od.len());
        if let Some(cd_pos) = find_from(s, cd, od_pos + od.len()) {
            let cd_end = cd_pos + cd.len() as int;
            lemma_find_from_props(s, od, cd_end);
            lemma_find_char_from_props(s, '\n', cd_end);
            let x0 = find_from(s, od, cd_end);
            let x1 = find_char_from(s, '\n', cd_end);
            match (x0, x1) {
                (Some(o), Some(e)) => if e < o {
                    if is_space_range(s, cd_end, e) && is_space_range(s, e + 1, o) {
                        lemma_standalone_from_bounds(s, od, cd, e + 1, e + 1, o);
                    }
                } else {
                    if is_space_range(s, cd_end, o) {
                        lemma_standalone_from_bounds(s, od, cd, cd_end, after, o);
                    }
                },
                (Some(o), None) => if is_space_range(s, cd_end, o) {
                    lemma_standalone_from_bounds(s, od, cd, cd_end, after, o);
                },
                _ => {},
            }
        }
    }
}

/// The standalone span stays inside the text.
pub proof fn lemma_span_standalone_bounds(s: Seq<char>, od: Seq<char>, cd: Seq<char>)
    ensures
        0 <= span_standalone_spec(s, od, cd) <= s.len(),
{
    if od.len() >= 1 && cd.len() >= 1 {
        lemma_find_from_props(s, od, 0);
        if let Some(od0) = find_from(s, od, 0) {
            lemma_standalone_from_bounds(s, od, cd, 0, 0, od0);
        }
    }
}

/// A found tag span ends inside the text, past the open delimiter.
pub proof fn lemma_span_tag_bounds(s: Seq<char>, od: Seq<char>, cd: Seq<char>)
    requires
        od.len() >= 1,
        cd.len() >= 1,
    ensures
        match span_tag_spec(s, od, cd) {
            Some((t, a)) => od.len() < a <= s.len(),
            None => true,
        },
{
    let odl = od.len() as int;
    if s.len() > odl {
        let c = s[odl];
        let eff = if c == '{' {
            seq!['}'] + cd
        } else if c == '=' {
            seq!['='] + cd
        } else {
            cd
        };
        lemma_find_from_props(s, eff, odl);
    }
}

/// A text span ends inside the text, and moves forward unless the text
/// starts with the open delimiter.
pub proof fn lemma_span_text_bounds(s: Seq<char>, od: Seq<char>, cd: Seq<char>)
    requires
        od.len() >= 1,
        cd.len() >= 1,
    ensures
        ({
            let (e, a, sa) = span_text_spec(s, od, cd);
            0 <= e <= a <= s.len() && 0 <= sa <= s.len() && (!occurs_at(s, od, 0) && s.len() > 0
                ==> a >= 1)
        }),
{
    lemma_find_from_props(s, od, 0);
    let after_text = match find_from(s, od, 0) {
        Some(p) => p,
        None => s.len() as int,
    };
    lemma_rfind_char_before_props(s, '\n', after_text);
    if let Some(e) = rfind_char_before(s, '\n', after_text) {
        lemma_span_standalone_bounds(s.subrange(e + 1, s.len() as int), od, cd);
    }
}

/// Exec counterpart of [span_tag_spec].
pub fn span_tag(s: &str, od: &str, cd: &str) -> (r: Option<(String, usize)>)
    requires
        od@.len() >= 1,
        cd@.len() >= 1,
    ensures
        match (r, span_tag_spec(s@, od@, cd@)) {
            (Some((t, a)), Some((st, sa))) => t@ == st && a == sa && a <= s@.len(),
            (None, None) => true,
            _ => false,
        },
{
    let s_len = s.unicode_len();
    let odl = od.unicode_len();
    if s_len <= odl {
        return None;
    }
    let c = s.get_char(odl);
    let eff: String = if c == '{' {
        proof {
            reveal_strlit("}");
        }
        let mut e = String::from_str("}");
        e.append(cd);
        assert(e@ =~= seq!['}'] + cd@);
        e
    } else if c == '=' {
        proof {
            reveal_strlit("=");
        }
        let mut e = String::from_str("=");
        e.append(cd);
        assert(e@ =~= seq!['='] + cd@);
        e
    } else {
        String::from_str(cd)
    };
    match find_str_from(s, eff.as_str(), odl) {
        None => None,
        Some(p) => {
            proof {
                lemma_find_from_props(s@, eff@, odl as int);
            }
            let interior = trimmed_exec(s, odl, p);
            Some((interior, p + eff.as_str().unicode_len()))
        },
    }
}

/// The span of literal text at the start of `s`, up to the next open
/// delimiter: returns `(end_of_text, after_text, after_standalone)`. When
/// the text contains a newline and what follows that newline is a standalone
/// run, the text ends just past the newline and `after_standalone` points
/// past the run; otherwise all three positions describe the next open
/// delimiter (or the end of the text).
pub open spec fn span_text_spec(s: Seq<char>, od: Seq<char>, cd: Seq<char>) -> (int, int, int) {
    let after_text = match find_from(s, od, 0) {
        Some(p) => p,
        None => s.len() as int,
    };
    match rfind_char_before(s, '\n', after_text) {
        Some(e) => {
            let p = span_standalone_spec(s.subrange(e + 1, s.len() as int), od, cd);
            if p > 0 {
                (e + 1, after_text, e + 1 + p)
            } else {
                (after_text, after_text, after_text)
            }
        },
        None => (after_text, after_text, after_text),
    }
}

/// Exec counterpart of [span_text_spec].
pub fn span_text(s: &str, od: &str, cd: &str) -> (r: (usize, usize, usize))
    requires
        od@.len() >= 1,
        cd@.len() >= 1,
    ensures
        (r.0 as int, r.1 as int, r.2 as int) == span_text_spec(s@, od@, cd@),
        r.0 <= r.1 <= s@.len(),
        r.0 <= r.2 <= s@.len(),
{
    let s_len = s.unicode_len();
    let after_text = match find_str_from(s, od, 0) {
        Some(p) => {
            proof {
                lemma_find_from_props(s@, od@, 0);
            }
            p
        },
        None => s_len,
    };
    match rfind_char_exec(s, '\n', after_text) {
        Some(e) => {
            proof {
                lemma_rfind_char_before_props(s@, '\n', after_text as int);
            }
            let rest = s.substring_char(e + 1, s_len);
            let p = span_standalone(rest, od, cd);
            if p > 0 {
                (e + 1, after_text, e + 1 + p)
            } else {
                (after_text, after_text, after_text)
            }
        },
        None => (after_text, after_text, after_text),
    }
}

/// Exec counterpart of [trim_end_until].
pub fn trim_end_exec(s: &str, start: usize, end: usize) -> (r: usize)
    requires
        start <= end <= s@.len(),
    ensures
        r == trim_end_until(s@, start as int, end as int),
        start <= r <= end,
    decreases end - start,
{
    if end <= start {
        start
    } else if is_ws(s.get_char(end - 1)) {
        trim_end_exec(s, start, end - 1)
    } else {
        end
    }
}

} // verus!
