//! The header parser: turns an HTTP-header-style block of `key: value` lines
//! into a key/value mapping.
//!
//! Each line is split at its first colon; the text before the colon, trimmed
//! of surrounding whitespace, is the key, the text after it, trimmed, is the
//! value. Lines without a colon are skipped silently, and when a key appears
//! on several lines the last occurrence wins. Whitespace here is the ASCII
//! kind (the reply blocks this library parses are ASCII header text).

use vstd::prelude::*;
use vstd::string::StrSliceExecFns;

verus! {

/// The characters that trimming strips from the ends of keys and values.
pub open spec fn is_space(c: char) -> bool {
    c == ' ' || c == '\t' || c == '\n' || c == '\r' || c == '\u{b}' || c == '\u{c}'
}

/// A sequence with its leading whitespace removed.
pub open spec fn trim_start(s: Seq<char>) -> Seq<char>
    decreases s.len(),
{
    if s.len() == 0 {
        s
    } else if is_space(s[0]) {
        trim_start(s.drop_first())
    } else {
        s
    }
}

/// A sequence with its trailing whitespace removed.
pub open spec fn trim_end(s: Seq<char>) -> Seq<char>
    decreases s.len(),
{
    if s.len() == 0 {
        s
    } else if is_space(s.last()) {
        trim_end(s.drop_last())
    } else {
        s
    }
}

/// A sequence with whitespace removed from both ends.
pub open spec fn trim(s: Seq<char>) -> Seq<char> {
    trim_end(trim_start(s))
}

/// The index of the first occurrence of `c` in `s`, if any.
pub open spec fn find_char(s: Seq<char>, c: char) -> Option<int>
    decreases s.len(),
{
    if s.len() == 0 {
        None
    } else if s[0] == c {
        Some(0int)
    } else {
        match find_char(s.drop_first(), c) {
            Some(i) => Some(i + 1),
            None => None,
        }
    }
}

/// What one line contributes to the mapping: its key and value if it contains
/// a colon (split at the first one, both sides trimmed), nothing otherwise.
pub open spec fn parse_line_spec(line: Seq<char>) -> Option<(Seq<char>, Seq<char>)> {
    match find_char(line, ':') {
        Some(i) => Some((trim(line.take(i)), trim(line.skip(i + 1)))),
        None => None,
    }
}

/// The text split at every newline. Unlike the lines themselves, the split
/// keeps empty segments; they carry no colon and so contribute nothing to the
/// mapping.
pub open spec fn split_lines_spec(s: Seq<char>) -> Seq<Seq<char>>
    decreases s.len(),
{
    if s.len() == 0 {
        seq![Seq::empty()]
    } else if s.last() == '\n' {
        split_lines_spec(s.drop_last()).push(Seq::empty())
    } else {
        let front = split_lines_spec(s.drop_last());
        front.update(front.len() - 1, front.last().push(s.last()))
    }
}

/// The mapping that a sequence of lines produces: lines are folded in order,
/// so a later line with the same key overwrites an earlier one.
pub open spec fn headers_of(lines: Seq<Seq<char>>) -> Map<Seq<char>, Seq<char>>
    decreases lines.len(),
{
    if lines.len() == 0 {
        Map::empty()
    } else {
        let front = headers_of(lines.drop_last());
        match parse_line_spec(lines.last()) {
            Some(kv) => front.insert(kv.0, kv.1),
            None => front,
        }
    }
}

/// The header mapping of a whole reply text.
pub open spec fn headers_of_text(text: Seq<char>) -> Map<Seq<char>, Seq<char>> {
    headers_of(split_lines_spec(text))
}

/// The set of keys contributed by the colon-containing lines.
pub open spec fn line_keys(lines: Seq<Seq<char>>) -> Set<Seq<char>>
    decreases lines.len(),
{
    if lines.len() == 0 {
        Set::empty()
    } else {
        let front = line_keys(lines.drop_last());
        match parse_line_spec(lines.last()) {
            Some(kv) => front.insert(kv.0),
            None => front,
        }
    }
}

/// The views of a sequence of strings.
pub open spec fn string_views(ss: Seq<String>) -> Seq<Seq<char>> {
    ss.map_values(|x: String| x@)
}

/// The mapping described by a list of key/value pairs, later pairs winning.
pub open spec fn pairs_map(ps: Seq<(String, String)>) -> Map<Seq<char>, Seq<char>>
    decreases ps.len(),
{
    if ps.len() == 0 {
        Map::empty()
    } else {
        pairs_map(ps.drop_last()).insert(ps.last().0@, ps.last().1@)
    }
}

/// No two pairs carry the same key.
pub open spec fn distinct_keys(ps: Seq<(String, String)>) -> bool {
    forall|i: int, j: int| 0 <= i < j < ps.len() ==> ps[i].0@ != ps[j].0@
}

proof fn lemma_find_char_props(s: Seq<char>, c: char)
    ensures
        match find_char(s, c) {
            Some(i) => 0 <= i < s.len() && s[i] == c && (forall|j: int| 0 <= j < i ==> s[j] != c),
            None => forall|j: int| 0 <= j < s.len() ==> s[j] != c,
        },
    decreases s.len(),
{
    if s.len() == 0 {
    } else if s[0] == c {
    } else {
        lemma_find_char_props(s.drop_first(), c);
        match find_char(s.drop_first(), c) {
            Some(i) => {
                assert forall|j: int| 0 <= j < i + 1 implies s[j] != c by {
                    if j > 0 {
                        assert(s[j] == s.drop_first()[j - 1]);
                    }
                }
            },
            None => {
                assert forall|j: int| 0 <= j < s.len() implies s[j] != c by {
                    if j > 0 {
                        assert(s[j] == s.drop_first()[j - 1]);
                    }
                }
            },
        }
    }
}

proof fn lemma_trim_start_skip(s: Seq<char>, i: int)
    requires
        0 <= i <= s.len(),
        forall|j: int| 0 <= j < i ==> is_space(s[j]),
        i == s.len() || !is_space(s[i]),
    ensures
        trim_start(s) == s.skip(i),
    decreases i,
{
    if i == 0 {
        assert(s.skip(0) =~= s);
    } else {
        let t = s.drop_first();
        assert(forall|j: int| 0 <= j < i - 1 ==> is_space(t[j]));
        lemma_trim_start_skip(t, i - 1);
        assert(t.skip(i - 1) =~= s.skip(i));
    }
}

proof fn lemma_trim_end_take(s: Seq<char>, i: int)
    requires
        0 <= i <= s.len(),
        forall|j: int| i <= j < s.len() ==> is_space(s[j]),
        i == 0 || !is_space(s[i - 1]),
    ensures
        trim_end(s) == s.take(i),
    decreases s.len(),
{
    if i == s.len() {
        assert(s.take(i) =~= s);
    } else {
        let t = s.drop_last();
        assert(is_space(s.last()));
        lemma_trim_end_take(t, i);
        assert(t.take(i) =~= s.take(i));
    }
}

/// Whether `c` counts as whitespace for trimming.
pub fn is_space_char(c: char) -> (r: bool)
    ensures
        r == is_space(c),
{
    c == ' ' || c == '\t' || c == '\n' || c == '\r' || c == '\u{b}' || c == '\u{c}'
}

/// Whether two string slices hold the same characters.
pub fn str_eq(a: &str, b: &str) -> (r: bool)
    ensures
        r == (a@ == b@),
{
    let na = a.unicode_len();
    let nb = b.unicode_len();
    if na != nb {
        return false;
    }
    let mut i: usize = 0;
    while i < na
        invariant
            0 <= i <= na,
            na == a@.len(),
            nb == b@.len(),
            na == nb,
            forall|j: int| 0 <= j < i ==> a@[j] == b@[j],
        decreases na - i,
    {
        if a.get_char(i) != b.get_char(i) {
            return false;
        }
        i += 1;
    }
    proof {
        assert(a@ =~= b@);
    }
    true
}

/// The slice with surrounding whitespace removed, as a fresh string.
pub fn trim_str(s: &str) -> (r: String)
    ensures
        r@ == trim(s@),
{
    let n = s.unicode_len();
    let mut start: usize = 0;
    while start < n && is_space_char(s.get_char(start))
        invariant
            0 <= start <= n,
            n == s@.len(),
            forall|j: int| 0 <= j < start ==> is_space(s@[j]),
        decreases n - start,
    {
        start += 1;
    }
    let mut end: usize = n;
    while end > start && is_space_char(s.get_char(end - 1))
        invariant
            start <= end <= n,
            n == s@.len(),
            forall|j: int| end <= j < n ==> is_space(s@[j]),
        decreases end,
    {
        end -= 1;
    }
    let piece = s.substring_char(start, end);
    let r = piece.to_owned();
    proof {
        lemma_trim_start_skip(s@, start as int);
        let tail = s@.skip(start as int);
        if end == start {
            lemma_trim_end_take(tail, 0);
            assert(tail.take(0) =~= s@.subrange(start as int, end as int));
        } else {
            assert(!is_space(s@[end - 1]));
            assert(forall|j: int| end - start <= j < tail.len() ==> is_space(#[trigger] tail[j]));
            lemma_trim_end_take(tail, end - start);
            assert(tail.take(end - start) =~= s@.subrange(start as int, end as int));
        }
    }
    r
}

/// The text split at every newline, each segment as a fresh string.
pub fn split_lines(s: &str) -> (r: Vec<String>)
    ensures
        string_views(r@) == split_lines_spec(s@),
{
    let n = s.unicode_len();
    let mut out: Vec<String> = Vec::new();
    let mut start: usize = 0;
    let mut i: usize = 0;
    proof {
        assert(s@.take(0) =~= Seq::<char>::empty());
        assert(s@.subrange(0, 0) =~= Seq::<char>::empty());
        assert(string_views(out@).push(s@.subrange(0, 0)) =~= seq![Seq::<char>::empty()]);
    }
    while i < n
        invariant
            0 <= start <= i <= n,
            n == s@.len(),
            split_lines_spec(s@.take(i as int)) == string_views(out@).push(
                s@.subrange(start as int, i as int),
            ),
        decreases n - i,
    {
        let c = s.get_char(i);
        proof {
            assert(s@.take(i + 1).drop_last() =~= s@.take(i as int));
            assert(s@.take(i + 1).last() == s@[i as int]);
        }
        if c == '\n' {
            let piece = s.substring_char(start, i);
            let owned = piece.to_owned();
            proof {
                let prev = string_views(out@).push(s@.subrange(start as int, i as int));
                assert(split_lines_spec(s@.take(i + 1)) =~= prev.push(Seq::empty()));
                assert(string_views(out@.push(owned)) =~= string_views(out@).push(owned@));
                assert(s@.subrange(i + 1, i + 1) =~= Seq::<char>::empty());
            }
            out.push(owned);
            start = i + 1;
        } else {
            proof {
                let prev = string_views(out@).push(s@.subrange(start as int, i as int));
                assert(prev.len() >= 1);
                assert(split_lines_spec(s@.take(i + 1)) =~= prev.update(
                    prev.len() - 1,
                    prev.last().push(s@[i as int]),
                ));
                assert(s@.subrange(start as int, i as int).push(s@[i as int]) =~= s@.subrange(
                    start as int,
                    i + 1,
                ));
                assert(prev.update(prev.len() - 1, prev.last().push(s@[i as int]))
                    =~= string_views(out@).push(s@.subrange(start as int, i + 1)));
            }
        }
        i += 1;
    }
    let piece = s.substring_char(start, n);
    let owned = piece.to_owned();
    let ghost before = out@;
    out.push(owned);
    proof {
        assert(s@.take(n as int) =~= s@);
        assert(string_views(out@) =~= string_views(before).push(
            s@.subrange(start as int, n as int),
        ));
    }
    out
}

/// Split one line at its first colon: the trimmed key and the trimmed value,
/// or nothing when the line has no colon.
pub fn parse_line(message: &str) -> (r: Option<(String, String)>)
    ensures
        match parse_line_spec(message@) {
            Some(kv) => r matches Some(p) && p.0@ == kv.0 && p.1@ == kv.1,
            None => r is None,
        },
{
    let n = message.unicode_len();
    let mut i: usize = 0;
    while i < n && message.get_char(i) != ':'
        invariant
            0 <= i <= n,
            n == message@.len(),
            forall|j: int| 0 <= j < i ==> message@[j] != ':',
        decreases n - i,
    {
        i += 1;
    }
    proof {
        lemma_find_char_props(message@, ':');
    }
    if i == n {
        None
    } else {
        assert(message@[i as int] == ':');
        assert(find_char(message@, ':') == Some(i as int));
        let key_part = message.substring_char(0, i);
        let key = trim_str(key_part);
        let val_part = message.substring_char(i + 1, n);
        let val = trim_str(val_part);
        proof {
            assert(message@.subrange(0, i as int) =~= message@.take(i as int));
            assert(message@.subrange(i + 1, n as int) =~= message@.skip(i + 1));
        }
        Some((key, val))
    }
}

proof fn lemma_pairs_map_contains(ps: Seq<(String, String)>, k: Seq<char>)
    ensures
        pairs_map(ps).contains_key(k) <==> exists|i: int| 0 <= i < ps.len() && ps[i].0@ == k,
    decreases ps.len(),
{
    if ps.len() == 0 {
    } else {
        lemma_pairs_map_contains(ps.drop_last(), k);
        if ps.last().0@ == k {
            assert(ps[ps.len() - 1].0@ == k);
        } else if pairs_map(ps.drop_last()).contains_key(k) {
            let i = choose|i: int| 0 <= i < ps.drop_last().len() && ps.drop_last()[i].0@ == k;
            assert(ps[i].0@ == k);
        } else if exists|i: int| 0 <= i < ps.len() && ps[i].0@ == k {
            let i = choose|i: int| 0 <= i < ps.len() && ps[i].0@ == k;
            assert(i < ps.len() - 1);
            assert(ps.drop_last()[i].0@ == k);
        }
    }
}

proof fn lemma_pairs_map_remove(ps: Seq<(String, String)>, i: int)
    requires
        distinct_keys(ps),
        0 <= i < ps.len(),
    ensures
        pairs_map(ps.remove(i)) == pairs_map(ps).remove(ps[i].0@),
    decreases ps.len(),
{
    let k = ps[i].0@;
    if i == ps.len() - 1 {
        assert(ps.remove(i) =~= ps.drop_last());
        lemma_pairs_map_contains(ps.drop_last(), k);
        assert(!pairs_map(ps.drop_last()).contains_key(k));
        assert(pairs_map(ps.drop_last()).insert(k, ps.last().1@).remove(k) =~= pairs_map(
            ps.drop_last(),
        ));
    } else {
        let front = ps.drop_last();
        assert(ps.remove(i).drop_last() =~= front.remove(i));
        assert(ps.remove(i).last() == ps.last());
        lemma_pairs_map_remove(front, i);
        assert(front[i].0@ == k);
        assert(ps.last().0@ != k);
        assert(pairs_map(front).remove(k).insert(ps.last().0@, ps.last().1@) =~= pairs_map(
            front,
        ).insert(ps.last().0@, ps.last().1@).remove(k));
    }
}

proof fn lemma_pairs_map_distinct_len(ps: Seq<(String, String)>)
    requires
        distinct_keys(ps),
    ensures
        pairs_map(ps).dom().finite(),
        pairs_map(ps).dom().len() == ps.len(),
    decreases ps.len(),
{
    if ps.len() == 0 {
        assert(pairs_map(ps).dom() =~= Set::<Seq<char>>::empty());
    } else {
        let front = ps.drop_last();
        assert(distinct_keys(front));
        lemma_pairs_map_distinct_len(front);
        lemma_pairs_map_contains(front, ps.last().0@);
        assert(forall|j: int| 0 <= j < front.len() ==> front[j].0@ != ps.last().0@);
        assert(!pairs_map(front).contains_key(ps.last().0@));
        assert(pairs_map(ps).dom() =~= pairs_map(front).dom().insert(ps.last().0@));
    }
}

/// Last-write-wins insertion: replace the pair that already carries `key`, or
/// add a new pair at the end.
fn upsert(pairs: &mut Vec<(String, String)>, key: String, value: String)
    requires
        distinct_keys(old(pairs)@),
    ensures
        pairs_map(final(pairs)@) == pairs_map(old(pairs)@).insert(key@, value@),
        distinct_keys(final(pairs)@),
{
    let n = pairs.len();
    let mut i: usize = 0;
    while i < n
        invariant
            0 <= i <= n,
            n == pairs@.len(),
            distinct_keys(pairs@),
            pairs@ == old(pairs)@,
            forall|j: int| 0 <= j < i ==> pairs@[j].0@ != key@,
        decreases n - i,
    {
        if str_eq(pairs[i].0.as_str(), key.as_str()) {
            proof {
                lemma_pairs_map_remove(pairs@, i as int);
            }
            let ghost removed = pairs@.remove(i as int);
            let _old_pair = pairs.remove(i);
            proof {
                assert(pairs@ == removed);
                assert(distinct_keys(removed)) by {
                    assert(forall|a: int, b: int|
                        0 <= a < b < removed.len() ==> removed[a].0@ != removed[b].0@) by {
                        assert(forall|a: int| 0 <= a < i ==> removed[a] == old(pairs)@[a]);
                        assert(forall|a: int|
                            i <= a < removed.len() ==> removed[a] == old(pairs)@[a + 1]);
                    }
                }
                assert(forall|a: int| 0 <= a < removed.len() ==> removed[a].0@ != key@) by {
                    assert(forall|a: int| 0 <= a < i ==> removed[a] == old(pairs)@[a]);
                    assert(forall|a: int|
                        i <= a < removed.len() ==> removed[a] == old(pairs)@[a + 1]);
                }
            }
            let ghost before_push = pairs@;
            pairs.push((key, value));
            proof {
                assert(pairs@.drop_last() =~= before_push);
                assert(pairs_map(pairs@) == pairs_map(before_push).insert(key@, value@));
                assert(pairs_map(before_push).insert(key@, value@) =~= pairs_map(
                    old(pairs)@,
                ).insert(key@, value@));
                assert(forall|a: int| 0 <= a < pairs@.len() - 1 ==> pairs@[a] == before_push[a]);
            }
            return ;
        }
        i += 1;
    }
    let ghost before_push = pairs@;
    pairs.push((key, value));
    proof {
        assert(pairs@.drop_last() =~= before_push);
        assert(forall|a: int| 0 <= a < pairs@.len() - 1 ==> pairs@[a] == before_push[a]);
    }
}

/// Parse a whole reply text into its key/value pairs. The result is the
/// header mapping itself: keys are distinct and a key that several lines
/// carry keeps the value of the last such line.
pub fn parse_response(message: &str) -> (r: Vec<(String, String)>)
    ensures
        pairs_map(r@) == headers_of_text(message@),
        distinct_keys(r@),
        r@.len() == headers_of_text(message@).dom().len(),
{
    let lines = split_lines(message);
    let mut out: Vec<(String, String)> = Vec::new();
    let n = lines.len();
    let mut i: usize = 0;
    proof {
        assert(lines@.len() == string_views(lines@).len());
        assert(split_lines_spec(message@).take(0) =~= Seq::<Seq<char>>::empty());
    }
    while i < n
        invariant
            0 <= i <= n,
            n == lines@.len(),
            string_views(lines@) == split_lines_spec(message@),
            pairs_map(out@) == headers_of(split_lines_spec(message@).take(i as int)),
            distinct_keys(out@),
        decreases n - i,
    {
        let line = &lines[i];
        proof {
            assert(line@ == string_views(lines@)[i as int]);
            assert(split_lines_spec(message@).take(i + 1).drop_last() =~= split_lines_spec(
                message@,
            ).take(i as int));
            assert(split_lines_spec(message@).take(i + 1).last() == line@);
        }
        match parse_line(line.as_str()) {
            Some(kv) => {
                let (key, value) = kv;
                upsert(&mut out, key, value);
            },
            None => {},
        }
        i += 1;
    }
    proof {
        assert(split_lines_spec(message@).take(n as int) =~= split_lines_spec(message@));
        lemma_pairs_map_distinct_len(out@);
    }
    out
}

/// The parser's output mapping has exactly one entry per distinct key among
/// the colon-containing lines, last write winning, and the colon-free lines
/// contribute nothing: the mapping's domain is exactly the set of keys of the
/// lines that contain a colon.
pub proof fn lemma_header_parser_entries(text: Seq<char>)
    ensures
        headers_of_text(text).dom() =~= line_keys(split_lines_spec(text)),
        headers_of_text(text).dom().finite(),
{
    lemma_headers_of_dom(split_lines_spec(text));
}

proof fn lemma_headers_of_dom(lines: Seq<Seq<char>>)
    ensures
        headers_of(lines).dom() =~= line_keys(lines),
        headers_of(lines).dom().finite(),
    decreases lines.len(),
{
    if lines.len() == 0 {
        assert(headers_of(lines).dom() =~= Set::<Seq<char>>::empty());
    } else {
        lemma_headers_of_dom(lines.drop_last());
        match parse_line_spec(lines.last()) {
            Some(kv) => {
                assert(headers_of(lines).dom() =~= headers_of(lines.drop_last()).dom().insert(
                    kv.0,
                ));
            },
            None => {},
        }
    }
}

} // verus!
