//! The mathematical model of the profile-file dialect: line splitting,
//! line classification, the parsing state machine, the ordering of the
//! result, and the laws that hold of them.
//!
//! A file is a sequence of lines. Each line is trimmed and then classified:
//! empty and comment lines are ignored; a `[profile name]` header finishes
//! the open profile, if any, and opens a new one; a `key = value` line adds
//! an attribute to the open profile; anything else is silently ignored.
//! The finished collection is sorted by profile name.

use vstd::prelude::*;
use crate::text::{find_from, is_ws, lex_le, lemma_lex_total, lemma_lex_trans, trim};

verus! {

/// The abstract value of one profile: a name and an attribute mapping.
#[verifier::ext_equal]
pub struct ProfileData {
    pub name: Seq<char>,
    pub attributes: Map<Seq<char>, Seq<char>>,
}

/// The state of the line-by-line parse: the profiles already finished, and
/// the profile whose section is still open, if any.
#[verifier::ext_equal]
pub struct ParseState {
    pub done: Seq<ProfileData>,
    pub cur: Option<ProfileData>,
}

/// The characters `[profile`, the prefix every section header starts with.
pub open spec fn header_prefix() -> Seq<char> {
    seq!['[', 'p', 'r', 'o', 'f', 'i', 'l', 'e']
}

/// Whether a trimmed line is a section header: `[profile`, at least one
/// whitespace character, at least one non-`]` character, then `]`.
/// Anything after the `]` is tolerated.
pub open spec fn is_header(line: Seq<char>) -> bool {
    &&& line.len() > 8
    &&& line.take(8) == header_prefix()
    &&& is_ws(line[8])
    &&& {
        let e = find_from(line, ']', 9);
        9 < e < line.len()
    }
}

/// The name a header line declares: the characters between the whitespace
/// after `[profile` and the first `]`, trimmed.
pub open spec fn header_name_of(line: Seq<char>) -> Seq<char>
    recommends
        is_header(line),
{
    trim(line.subrange(9, find_from(line, ']', 9)))
}

/// The key and value a trimmed line declares, if any: the line must hold a
/// `=` that is not its first character; the key is the text before the
/// first `=` and the value the text after it, each trimmed.
pub open spec fn kv_of(line: Seq<char>) -> Option<(Seq<char>, Seq<char>)> {
    let e = find_from(line, '=', 0);
    if 0 < e < line.len() {
        Some((trim(line.take(e)), trim(line.subrange(e + 1, line.len() as int))))
    } else {
        None
    }
}

/// Whether a trimmed line is ignored outright: empty or a comment.
pub open spec fn is_blank_or_comment(line: Seq<char>) -> bool {
    line.len() == 0 || line[0] == '#'
}

/// One step of the parse: classify a raw line and update the state.
pub open spec fn step_line(st: ParseState, raw: Seq<char>) -> ParseState {
    let line = trim(raw);
    if is_blank_or_comment(line) {
        st
    } else if is_header(line) {
        ParseState {
            done: match st.cur {
                Option::None => st.done,
                Option::Some(p) => st.done.push(p),
            },
            cur: Some(ProfileData { name: header_name_of(line), attributes: Map::empty() }),
        }
    } else {
        match st.cur {
            Option::None => st,
            Option::Some(p) => match kv_of(line) {
                Option::None => st,
                Option::Some(kv) => ParseState {
                    done: st.done,
                    cur: Some(
                        ProfileData { name: p.name, attributes: p.attributes.insert(kv.0, kv.1) },
                    ),
                },
            },
        }
    }
}

/// The state after processing a sequence of lines, in order, from the
/// empty state.
pub open spec fn run_lines(lines: Seq<Seq<char>>) -> ParseState
    decreases lines.len(),
{
    if lines.len() == 0 {
        ParseState { done: seq![], cur: None }
    } else {
        step_line(run_lines(lines.drop_last()), lines.last())
    }
}

/// At the end of the input the still-open profile, if any, is finished.
pub open spec fn finish(st: ParseState) -> Seq<ProfileData> {
    match st.cur {
        Option::None => st.done,
        Option::Some(p) => st.done.push(p),
    }
}

/// The lines of a text, split at every `'\n'`. The scan position `i` marks
/// how far the first line has been searched for a `'\n'` already.
pub open spec fn split_lines_at(s: Seq<char>, i: int) -> Seq<Seq<char>>
    decreases s.len() - i, s.len() - i,
{
    if i < 0 || i >= s.len() {
        seq![s]
    } else if s[i] == '\n' {
        seq![s.take(i)] + split_lines_at(s.subrange(i + 1, s.len() as int), 0)
    } else {
        split_lines_at(s, i + 1)
    }
}

/// The lines of a text: the pieces between its `'\n'` characters. A text
/// without a `'\n'` is a single line; each `'\n'` ends a line, and the
/// text after the last `'\n'` is the final line, empty if there is none.
pub open spec fn split_lines(s: Seq<char>) -> Seq<Seq<char>> {
    split_lines_at(s, 0)
}

/// Splitting takes the text up to the first `'\n'` as the first line and
/// then splits the rest; a text without `'\n'` is a single line.
pub proof fn lemma_split_lines_first(s: Seq<char>, i: int)
    requires
        0 <= i <= s.len(),
        forall|k: int| 0 <= k < i ==> s[k] != '\n',
    ensures
        ({
            let e = find_from(s, '\n', i);
            if e < s.len() {
                split_lines(s) == seq![s.take(e)] + split_lines(s.subrange(e + 1, s.len() as int))
            } else {
                split_lines(s) == seq![s]
            }
        }),
    decreases s.len() - i,
{
    crate::text::lemma_find_from(s, '\n', i);
    if i < s.len() && s[i] != '\n' {
        lemma_split_lines_first(s, i + 1);
        lemma_split_lines_at_skip(s, i);
    } else {
        lemma_split_lines_at_skip(s, i);
    }
}

/// Scanning past positions that hold no `'\n'` does not change the split.
proof fn lemma_split_lines_at_skip(s: Seq<char>, i: int)
    requires
        0 <= i <= s.len(),
        forall|k: int| 0 <= k < i ==> s[k] != '\n',
    ensures
        split_lines_at(s, 0) == split_lines_at(s, i),
    decreases i,
{
    if i > 0 {
        lemma_split_lines_at_skip(s, i - 1);
        assert(split_lines_at(s, i - 1) == split_lines_at(s, i));
    }
}

/// The number of lines whose trimmed text is a section header.
pub open spec fn count_headers(lines: Seq<Seq<char>>) -> nat
    decreases lines.len(),
{
    if lines.len() == 0 {
        0
    } else {
        count_headers(lines.drop_last()) + (if is_header(trim(lines.last())) {
            1nat
        } else {
            0
        })
    }
}

/// Inserting a profile into a name-sorted sequence: it goes after every
/// profile whose name is at most its own, so equal names keep their order.
pub open spec fn insert_by_name(s: Seq<ProfileData>, p: ProfileData) -> Seq<ProfileData>
    decreases s.len(),
{
    if s.len() == 0 {
        seq![p]
    } else if lex_le(s.last().name, p.name) {
        s.push(p)
    } else {
        insert_by_name(s.drop_last(), p).push(s.last())
    }
}

/// The stable sort of a profile sequence by name, ascending.
pub open spec fn sort_by_name(s: Seq<ProfileData>) -> Seq<ProfileData>
    decreases s.len(),
{
    if s.len() == 0 {
        s
    } else {
        insert_by_name(sort_by_name(s.drop_last()), s.last())
    }
}

/// Whether a profile sequence is sorted by name, ascending.
pub open spec fn sorted_by_name(s: Seq<ProfileData>) -> bool {
    forall|i: int, j: int| 0 <= i < j < s.len() ==> lex_le(#[trigger] s[i].name, #[trigger] s[j].name)
}

/// The mapping an attribute list denotes: each pair inserted in order, so
/// a later pair with the same key wins.
pub open spec fn attrs_map(pairs: Seq<(String, String)>) -> Map<Seq<char>, Seq<char>>
    decreases pairs.len(),
{
    if pairs.len() == 0 {
        Map::empty()
    } else {
        attrs_map(pairs.drop_last()).insert(pairs.last().0@, pairs.last().1@)
    }
}

/// Whether no key occurs twice in an attribute list.
pub open spec fn distinct_keys(pairs: Seq<(String, String)>) -> bool {
    forall|i: int, j: int|
        0 <= i < j < pairs.len() ==> (#[trigger] pairs[i].0)@ != (#[trigger] pairs[j].0)@
}

/// Inserting at the position after every name at most the new one — and
/// before all the others — is what `insert_by_name` does.
pub proof fn lemma_insert_at(s: Seq<ProfileData>, p: ProfileData, j: int)
    requires
        0 <= j <= s.len(),
        forall|x: int| j <= x < s.len() ==> !lex_le((#[trigger] s[x]).name, p.name),
        j > 0 ==> lex_le(s[j - 1].name, p.name),
    ensures
        insert_by_name(s, p) == s.insert(j, p),
    decreases s.len(),
{
    if s.len() == 0 {
        assert(insert_by_name(s, p) =~= s.insert(0, p));
    } else if j == s.len() {
        assert(lex_le(s.last().name, p.name));
        assert(insert_by_name(s, p) =~= s.insert(j, p));
    } else {
        assert(!lex_le(s[s.len() - 1].name, p.name));
        assert(forall|x: int| j <= x < s.drop_last().len() ==> !lex_le(
            (#[trigger] s.drop_last()[x]).name,
            p.name,
        ));
        lemma_insert_at(s.drop_last(), p, j);
        assert(insert_by_name(s.drop_last(), p).push(s.last()) =~= s.insert(j, p));
    }
}

/// The abstract values of a sequence of profile records.
pub open spec fn views_of<T: View<V = ProfileData>>(s: Seq<T>) -> Seq<ProfileData> {
    s.map_values(|p: T| p.view())
}

/// The parse of a whole text: split into lines, run the state machine,
/// finish the open profile, sort by name.
pub open spec fn parse_result(text: Seq<char>) -> Seq<ProfileData> {
    sort_by_name(finish(run_lines(split_lines(text))))
}

/// Inserting keeps the length, plus one.
pub proof fn lemma_insert_len(s: Seq<ProfileData>, p: ProfileData)
    ensures
        insert_by_name(s, p).len() == s.len() + 1,
    decreases s.len(),
{
    if s.len() > 0 && !lex_le(s.last().name, p.name) {
        lemma_insert_len(s.drop_last(), p);
    }
}

/// Sorting keeps the length.
pub proof fn lemma_sort_len(s: Seq<ProfileData>)
    ensures
        sort_by_name(s).len() == s.len(),
    decreases s.len(),
{
    if s.len() > 0 {
        lemma_sort_len(s.drop_last());
        lemma_insert_len(sort_by_name(s.drop_last()), s.last());
    }
}

/// Inserting into a sorted sequence keeps it sorted.
pub proof fn lemma_insert_sorted(s: Seq<ProfileData>, p: ProfileData)
    requires
        sorted_by_name(s),
    ensures
        sorted_by_name(insert_by_name(s, p)),
    decreases s.len(),
{
    if s.len() == 0 {
    } else if lex_le(s.last().name, p.name) {
        let r = s.push(p);
        assert forall|i: int, j: int| 0 <= i < j < r.len() implies lex_le(
            #[trigger] r[i].name,
            #[trigger] r[j].name,
        ) by {
            if j == r.len() - 1 {
                if i < s.len() - 1 {
                    lemma_lex_trans(r[i].name, s.last().name, p.name);
                }
            }
        }
    } else {
        lemma_insert_sorted(s.drop_last(), p);
        lemma_insert_len(s.drop_last(), p);
        let t = insert_by_name(s.drop_last(), p);
        let r = t.push(s.last());
        lemma_lex_total(s.last().name, p.name);
        assert forall|i: int, j: int| 0 <= i < j < r.len() implies lex_le(
            #[trigger] r[i].name,
            #[trigger] r[j].name,
        ) by {
            if j == r.len() - 1 {
                lemma_insert_elems(s.drop_last(), p, i);
                if r[i] != p {
                    assert(lex_le(r[i].name, s.last().name));
                } else {
                    assert(lex_le(p.name, s.last().name));
                }
            }
        }
    }
}

/// Every element of an insertion is the inserted profile or one of the
/// originals; the originals other than the inserted one keep a witness.
proof fn lemma_insert_elems(s: Seq<ProfileData>, p: ProfileData, i: int)
    requires
        0 <= i < s.len() + 1,
    ensures
        insert_by_name(s, p).len() == s.len() + 1,
        insert_by_name(s, p)[i] == p || exists|k: int|
            0 <= k < s.len() && insert_by_name(s, p)[i] == s[k],
    decreases s.len(),
{
    lemma_insert_len(s, p);
    if s.len() == 0 {
    } else if lex_le(s.last().name, p.name) {
        if i < s.len() {
            assert(insert_by_name(s, p)[i] == s[i]);
        }
    } else {
        if i == s.len() {
            assert(insert_by_name(s, p)[i] == s[s.len() - 1]);
        } else {
            lemma_insert_elems(s.drop_last(), p, i);
            if insert_by_name(s.drop_last(), p)[i] != p {
                let k = choose|k: int|
                    0 <= k < s.drop_last().len() && insert_by_name(s.drop_last(), p)[i]
                        == s.drop_last()[k];
                assert(s.drop_last()[k] == s[k]);
            }
        }
    }
}

/// The sort of a profile sequence is sorted by name, ascending.
pub proof fn lemma_sort_sorted(s: Seq<ProfileData>)
    ensures
        sorted_by_name(sort_by_name(s)),
    decreases s.len(),
{
    if s.len() > 0 {
        lemma_sort_sorted(s.drop_last());
        lemma_insert_sorted(sort_by_name(s.drop_last()), s.last());
    }
}

/// Sorting keeps the multiset of profiles: the result is a permutation.
pub proof fn lemma_sort_permutes(s: Seq<ProfileData>)
    ensures
        sort_by_name(s).to_multiset() == s.to_multiset(),
    decreases s.len(),
{
    broadcast use vstd::seq_lib::group_to_multiset_ensures;

    if s.len() > 0 {
        lemma_sort_permutes(s.drop_last());
        lemma_insert_permutes(sort_by_name(s.drop_last()), s.last());
        assert(s =~= s.drop_last().push(s.last()));
    }
}

/// Inserting adds exactly the inserted profile to the multiset.
proof fn lemma_insert_permutes(s: Seq<ProfileData>, p: ProfileData)
    ensures
        insert_by_name(s, p).to_multiset() == s.to_multiset().insert(p),
    decreases s.len(),
{
    broadcast use vstd::seq_lib::group_to_multiset_ensures;

    if s.len() == 0 {
        assert(seq![p] =~= Seq::<ProfileData>::empty().push(p));
    } else if lex_le(s.last().name, p.name) {
    } else {
        lemma_insert_permutes(s.drop_last(), p);
        assert(s =~= s.drop_last().push(s.last()));
        assert(insert_by_name(s.drop_last(), p).push(s.last()).to_multiset() == insert_by_name(
            s.drop_last(),
            p,
        ).to_multiset().insert(s.last()));
        assert(s.to_multiset() == s.drop_last().to_multiset().insert(s.last()));
        assert(s.drop_last().to_multiset().insert(p).insert(s.last())
            == s.drop_last().to_multiset().insert(s.last()).insert(p));
    }
}

/// Law: a parse holds exactly one profile for each `[profile ...]` header
/// of the input, duplicates counted separately.
pub proof fn lemma_profile_count(lines: Seq<Seq<char>>)
    ensures
        finish(run_lines(lines)).len() == count_headers(lines),
    decreases lines.len(),
{
    if lines.len() > 0 {
        lemma_profile_count(lines.drop_last());
    }
}

/// Law: the parse of a text is sorted ascending by name, and its length
/// is the number of `[profile ...]` headers among the text's lines.
pub proof fn lemma_parse_sorted_and_counted(text: Seq<char>)
    ensures
        sorted_by_name(parse_result(text)),
        parse_result(text).len() == count_headers(split_lines(text)),
{
    lemma_sort_sorted(finish(run_lines(split_lines(text))));
    lemma_sort_len(finish(run_lines(split_lines(text))));
    lemma_profile_count(split_lines(text));
}

/// Law: a text with no `[profile ...]` header parses to the empty
/// collection.
pub proof fn lemma_no_headers_empty(text: Seq<char>)
    requires
        count_headers(split_lines(text)) == 0,
    ensures
        parse_result(text) == Seq::<ProfileData>::empty(),
{
    lemma_parse_sorted_and_counted(text);
    assert(parse_result(text) =~= Seq::<ProfileData>::empty());
}

/// Law: parsing is deterministic. The parse result is a function of the
/// text alone, so any two collections that both equal `parse_result` of
/// one text — two parses of the same file — are element-wise equal: same
/// length, same names, same attribute mappings, same order.
pub proof fn lemma_parse_deterministic(
    text: Seq<char>,
    r1: Seq<ProfileData>,
    r2: Seq<ProfileData>,
)
    requires
        r1 == parse_result(text),
        r2 == parse_result(text),
    ensures
        r1.len() == r2.len(),
        forall|i: int|
            0 <= i < r1.len() ==> (#[trigger] r1[i]).name == r2[i].name && r1[i].attributes
                == r2[i].attributes,
{
}

/// Law: a `key = value` line stores under the trimmed key exactly the
/// trimmed text after the first `=`, with no surrounding whitespace.
pub proof fn lemma_value_round_trip(st: ParseState, raw: Seq<char>)
    requires
        st.cur is Some,
        !is_blank_or_comment(trim(raw)),
        !is_header(trim(raw)),
        kv_of(trim(raw)) is Some,
    ensures
        ({
            let (k, v) = kv_of(trim(raw))->Some_0;
            let cur = step_line(st, raw).cur;
            &&& cur is Some
            &&& cur->Some_0.attributes.contains_key(k)
            &&& cur->Some_0.attributes[k] == v
            &&& v == trim(trim(raw).subrange(
                find_from(trim(raw), '=', 0) + 1,
                trim(raw).len() as int,
            ))
            &&& v.len() > 0 ==> !is_ws(v[0]) && !is_ws(v[v.len() - 1])
        }),
{
    let line = trim(raw);
    crate::text::lemma_trim_no_ws_ends(line.subrange(find_from(line, '=', 0) + 1, line.len() as int));
}

/// Law: within one section a later `key = value` line with the same key
/// wins; the earlier value is discarded.
pub proof fn lemma_later_duplicate_wins(st: ParseState, raw1: Seq<char>, raw2: Seq<char>)
    requires
        st.cur is Some,
        !is_blank_or_comment(trim(raw1)),
        !is_blank_or_comment(trim(raw2)),
        !is_header(trim(raw1)),
        !is_header(trim(raw2)),
        kv_of(trim(raw1)) is Some,
        kv_of(trim(raw2)) is Some,
        kv_of(trim(raw1))->Some_0.0 == kv_of(trim(raw2))->Some_0.0,
    ensures
        ({
            let st2 = step_line(step_line(st, raw1), raw2);
            &&& st2.cur is Some
            &&& st2.cur->Some_0.attributes[kv_of(trim(raw1))->Some_0.0]
                == kv_of(trim(raw2))->Some_0.1
        }),
{
}

/// Law: a line that is not a header and carries no `key = value` shape —
/// or any non-header line while no section is open — changes nothing: it
/// is silently ignored, never an error.
pub proof fn lemma_malformed_line_ignored(st: ParseState, raw: Seq<char>)
    requires
        !is_header(trim(raw)),
        st.cur is None || kv_of(trim(raw)) is None,
    ensures
        step_line(st, raw) == st,
{
}

} // verus!
