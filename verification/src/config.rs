//! Profile records and the profile-file parser.
//!
//! `parse_aws_config` turns the text of a configuration file into the
//! ordered collection of profiles that `crate::model::parse_result`
//! describes: lines are trimmed and classified, `[profile name]` headers
//! open sections, `key = value` lines fill them, malformed lines are
//! silently skipped, and the result is sorted by name.

use vstd::prelude::*;
use crate::model::{
    attrs_map, distinct_keys, finish, header_name_of, insert_by_name, is_blank_or_comment,
    is_header, kv_of, lemma_insert_at, parse_result, run_lines, sort_by_name, split_lines,
    step_line, views_of, ProfileData,
};
use crate::text::{
    find_char_from, is_ws_char, lemma_find_from, lemma_find_from_unique, str_eq, str_le, trim,
    trim_str,
};

verus! {

/// One named configuration section: a name and its attributes, each key
/// held once.
#[derive(Debug, Clone)]
pub struct Profile {
    pub name: String,
    pub attributes: Vec<(String, String)>,
}

impl View for Profile {
    type V = ProfileData;

    open spec fn view(&self) -> ProfileData {
        ProfileData { name: self.name@, attributes: attrs_map(self.attributes@) }
    }
}

impl Profile {
    /// The record's invariant: no attribute key occurs twice.
    pub open spec fn wf(&self) -> bool {
        distinct_keys(self.attributes@)
    }

    /// The value stored under `key`, if any.
    pub fn get_attribute(&self, key: &str) -> (r: Option<&str>)
        ensures
            match r {
                Some(v) => self@.attributes.contains_key(key@) && v@ == self@.attributes[key@],
                None => !self@.attributes.contains_key(key@),
            },
    {
        let mut i: usize = self.attributes.len();
        proof {
            assert(self.attributes@.take(i as int) =~= self.attributes@);
        }
        while i > 0
            invariant
                i <= self.attributes@.len(),
                attrs_map(self.attributes@).contains_key(key@) == attrs_map(
                    self.attributes@.take(i as int),
                ).contains_key(key@),
                attrs_map(self.attributes@).contains_key(key@) ==> attrs_map(
                    self.attributes@.take(i as int),
                )[key@] == attrs_map(self.attributes@)[key@],
            decreases i,
        {
            proof {
                let t = self.attributes@.take(i as int);
                assert(t.drop_last() =~= self.attributes@.take(i - 1));
                assert(t.last() == self.attributes@[i - 1]);
            }
            let pair = &self.attributes[i - 1];
            if str_eq(pair.0.as_str(), key) {
                return Some(pair.1.as_str());
            }
            i = i - 1;
        }
        proof {
            assert(self.attributes@.take(0) =~= Seq::<(String, String)>::empty());
        }
        None
    }

    /// The profile's account identifier, if the attribute is present.
    pub fn get_account_id(&self) -> (r: Option<&str>)
        ensures
            match r {
                Some(v) => self@.attributes.contains_key("sso_account_id"@) && v@
                    == self@.attributes["sso_account_id"@],
                None => !self@.attributes.contains_key("sso_account_id"@),
            },
    {
        self.get_attribute("sso_account_id")
    }

    /// The profile's region, if the attribute is present.
    pub fn get_region(&self) -> (r: Option<&str>)
        ensures
            match r {
                Some(v) => self@.attributes.contains_key("region"@) && v@
                    == self@.attributes["region"@],
                None => !self@.attributes.contains_key("region"@),
            },
    {
        self.get_attribute("region")
    }

    /// The profile's role name, if the attribute is present.
    pub fn get_role_name(&self) -> (r: Option<&str>)
        ensures
            match r {
                Some(v) => self@.attributes.contains_key("sso_role_name"@) && v@
                    == self@.attributes["sso_role_name"@],
                None => !self@.attributes.contains_key("sso_role_name"@),
            },
    {
        self.get_attribute("sso_role_name")
    }
}

/// Updating a pair in place with the same key is, on the mapping, one
/// insertion of that key.
proof fn lemma_attrs_map_update(s: Seq<(String, String)>, i: int, p: (String, String))
    requires
        distinct_keys(s),
        0 <= i < s.len(),
        s[i].0@ == p.0@,
    ensures
        attrs_map(s.update(i, p)) == attrs_map(s).insert(p.0@, p.1@),
    decreases s.len(),
{
    let u = s.update(i, p);
    if i == s.len() - 1 {
        assert(u.drop_last() =~= s.drop_last());
        assert(u.last() == p);
        assert(attrs_map(s.drop_last()).insert(s.last().0@, s.last().1@).insert(p.0@, p.1@)
            =~= attrs_map(s.drop_last()).insert(p.0@, p.1@));
    } else {
        assert(u.drop_last() =~= s.drop_last().update(i, p));
        assert(u.last() == s.last());
        assert(distinct_keys(s.drop_last()));
        lemma_attrs_map_update(s.drop_last(), i, p);
        assert(s[i].0@ != s.last().0@);
        assert(attrs_map(s.drop_last()).insert(p.0@, p.1@).insert(s.last().0@, s.last().1@)
            =~= attrs_map(s.drop_last()).insert(s.last().0@, s.last().1@).insert(p.0@, p.1@));
    }
}

/// Inserts or overwrites `key` in an attribute list whose keys are
/// distinct; on the mapping this is exactly one insertion.
fn insert_attr(attrs: &mut Vec<(String, String)>, key: String, value: String)
    requires
        distinct_keys(old(attrs)@),
    ensures
        distinct_keys(final(attrs)@),
        attrs_map(final(attrs)@) == attrs_map(old(attrs)@).insert(key@, value@),
{
    let n = attrs.len();
    let mut i: usize = 0;
    while i < n
        invariant
            0 <= i <= n,
            n == attrs@.len(),
            attrs@ == old(attrs)@,
            distinct_keys(attrs@),
            forall|j: int| 0 <= j < i ==> (#[trigger] attrs@[j].0)@ != key@,
        decreases n - i,
    {
        let found = {
            let pair = &attrs[i];
            str_eq(pair.0.as_str(), key.as_str())
        };
        if found {
            proof {
                lemma_attrs_map_update(attrs@, i as int, (key, value));
            }
            let ghost before = attrs@;
            let _ = attrs.remove(i);
            attrs.insert(i, (key, value));
            proof {
                assert(attrs@ =~= before.update(i as int, (key, value)));
            }
            return;
        }
        i = i + 1;
    }
    attrs.push((key, value));
    proof {
        assert(attrs@.drop_last() =~= old(attrs)@);
    }
}

/// Recognises a trimmed line as a `[profile name]` header and returns the
/// trimmed name.
fn try_header(line: &str) -> (r: Option<String>)
    ensures
        r is Some <==> is_header(line@),
        r is Some ==> r->Some_0@ == header_name_of(line@),
{
    let n = line.unicode_len();
    if n <= 8 {
        return None;
    }
    let prefix = line.substring_char(0, 8);
    proof {
        reveal_strlit("[profile");
        assert("[profile"@ =~= crate::model::header_prefix());
        assert(line@.take(8) =~= line@.subrange(0, 8));
    }
    if !str_eq(prefix, "[profile") {
        return None;
    }
    if !is_ws_char(line.get_char(8)) {
        return None;
    }
    let e = find_char_from(line, ']', 9);
    proof {
        lemma_find_from(line@, ']', 9);
    }
    if e >= n || e <= 9 {
        return None;
    }
    let captured = line.substring_char(9, e);
    let name = trim_str(captured);
    Some(name.to_owned())
}

/// Recognises a trimmed line as `key = value` and returns the trimmed key
/// and value.
fn try_key_value(line: &str) -> (r: Option<(String, String)>)
    ensures
        r is Some <==> kv_of(line@) is Some,
        r is Some ==> (r->Some_0.0@, r->Some_0.1@) == kv_of(line@)->Some_0,
{
    let n = line.unicode_len();
    let e = find_char_from(line, '=', 0);
    proof {
        lemma_find_from(line@, '=', 0);
    }
    if e == 0 || e >= n {
        return None;
    }
    proof {
        assert(line@.take(e as int) =~= line@.subrange(0, e as int));
    }
    let key = trim_str(line.substring_char(0, e));
    let value = trim_str(line.substring_char(e + 1, n));
    Some((key.to_owned(), value.to_owned()))
}

/// Stable insertion sort of profiles by name, ascending.
fn sort_profiles_vec(mut input: Vec<Profile>) -> (r: Vec<Profile>)
    requires
        forall|i: int| 0 <= i < input@.len() ==> (#[trigger] input@[i]).wf(),
    ensures
        views_of(r@) == sort_by_name(views_of(input@)),
        forall|i: int| 0 <= i < r@.len() ==> (#[trigger] r@[i]).wf(),
{
    let ghost orig = input@;
    let mut out: Vec<Profile> = Vec::new();
    proof {
        assert(input@ =~= orig.subrange(0, orig.len() as int));
        assert(views_of(orig.subrange(0, 0)) =~= Seq::<ProfileData>::empty());
        assert(views_of(out@) =~= Seq::<ProfileData>::empty());
    }
    while input.len() > 0
        invariant
            out@.len() + input@.len() == orig.len(),
            input@ == orig.subrange(orig.len() - input@.len(), orig.len() as int),
            views_of(out@) == sort_by_name(views_of(orig.subrange(0, out@.len() as int))),
            forall|i: int| 0 <= i < orig.len() ==> (#[trigger] orig[i]).wf(),
            forall|i: int| 0 <= i < out@.len() ==> (#[trigger] out@[i]).wf(),
        decreases input@.len(),
    {
        let ghost k = out@.len() as int;
        let p = input.remove(0);
        proof {
            assert(p == orig[k]);
            assert(input@ =~= orig.subrange(orig.len() - input@.len(), orig.len() as int));
        }
        let mut j: usize = out.len();
        while j > 0 && !str_le(out[j - 1].name.as_str(), p.name.as_str())
            invariant
                0 <= j <= out@.len(),
                forall|x: int| j <= x < out@.len() ==> !crate::text::lex_le(
                    (#[trigger] out@[x])@.name,
                    p@.name,
                ),
            decreases j,
        {
            j = j - 1;
        }
        proof {
            assert(forall|x: int| j <= x < out@.len() ==> !crate::text::lex_le(
                #[trigger] views_of(out@)[x].name,
                p@.name,
            ));
            lemma_insert_at(views_of(out@), p@, j as int);
        }
        let ghost out_before = out@;
        out.insert(j, p);
        proof {
            assert(views_of(out@) =~= views_of(out_before).insert(j as int, p@));
            let g1 = views_of(orig.subrange(0, k + 1));
            assert(g1.drop_last() =~= views_of(orig.subrange(0, k)));
            assert(g1.last() == orig[k]@);
            assert(views_of(out@) == insert_by_name(sort_by_name(views_of(orig.subrange(0, k))), orig[k]@));
            assert(sort_by_name(g1) == insert_by_name(sort_by_name(g1.drop_last()), g1.last()));
            assert(forall|i: int| 0 <= i < out@.len() ==> (#[trigger] out@[i]).wf()) by {
                assert(forall|i: int| 0 <= i < out_before.len() ==> (#[trigger] out_before[i]).wf());
                assert(forall|i: int| 0 <= i < out@.len() ==> out@[i] == p || (exists|y: int|
                    0 <= y < out_before.len() && out@[i] == out_before[y]));
            }
        }
    }
    proof {
        assert(orig.subrange(0, orig.len() as int) =~= orig);
    }
    out
}

/// Parses the text of a configuration file into profiles, sorted by name,
/// ascending. Every line is trimmed; empty and `#` lines are ignored;
/// `[profile name]` opens a section; `key = value` fills the open section,
/// a later duplicate key overwriting an earlier one; any other line is
/// silently skipped. The result is exactly `parse_result` of the text.
pub fn parse_aws_config(content: &str) -> (r: Vec<Profile>)
    ensures
        views_of(r@) == parse_result(content@),
        forall|i: int| 0 <= i < r@.len() ==> (#[trigger] r@[i]).wf(),
{
    let n = content.unicode_len();
    let mut done: Vec<Profile> = Vec::new();
    let mut cur_name: Option<String> = None;
    let mut cur_attrs: Vec<(String, String)> = Vec::new();
    let mut pos: usize = 0;
    let ghost mut processed: Seq<Seq<char>> = seq![];
    proof {
        assert(content@.subrange(0, n as int) =~= content@);
        assert(views_of(done@) =~= Seq::<ProfileData>::empty());
    }
    loop
        invariant_except_break
            pos <= n,
            split_lines(content@) == processed + split_lines(
                content@.subrange(pos as int, n as int),
            ),
        invariant
            n == content@.len(),
            run_lines(processed).done == views_of(done@),
            match cur_name {
                Option::None => run_lines(processed).cur is None && cur_attrs@.len() == 0,
                Option::Some(nm) => run_lines(processed).cur == Some(
                    ProfileData { name: nm@, attributes: attrs_map(cur_attrs@) },
                ),
            },
            distinct_keys(cur_attrs@),
            forall|i: int| 0 <= i < done@.len() ==> (#[trigger] done@[i]).wf(),
        ensures
            processed == split_lines(content@),
        decreases n - pos,
    {
        let e = find_char_from(content, '\n', pos);
        proof {
            lemma_find_from(content@, '\n', pos as int);
        }
        let raw = content.substring_char(pos, e);
        proof {
            let suf = content@.subrange(pos as int, n as int);
            lemma_find_from_unique(suf, '\n', 0, e - pos);
            crate::model::lemma_split_lines_first(suf, 0);
            if e < n {
                assert(suf.take(e - pos) =~= raw@);
                assert(suf.subrange(e - pos + 1, suf.len() as int) =~= content@.subrange(
                    e + 1,
                    n as int,
                ));
                assert((processed + (seq![raw@] + split_lines(content@.subrange(e + 1, n as int))))
                    =~= (processed.push(raw@) + split_lines(content@.subrange(e + 1, n as int))));
            } else {
                assert(suf =~= raw@);
                assert(processed + seq![raw@] =~= processed.push(raw@));
            }
        }
        let ghost st = run_lines(processed);
        let ghost processed_before = processed;
        proof {
            processed = processed.push(raw@);
            assert(processed.drop_last() =~= processed_before);
            assert(processed.last() == raw@);
        }
        let line = trim_str(raw);
        let ln = line.unicode_len();
        if ln == 0 {
            proof {
                assert(is_blank_or_comment(trim(raw@)));
            }
        } else if line.get_char(0) == '#' {
            proof {
                assert(is_blank_or_comment(trim(raw@)));
            }
        } else {
            match try_header(line) {
                Option::Some(nm) => {
                    match cur_name {
                        Option::Some(old_nm) => {
                            let finished = Profile { name: old_nm, attributes: cur_attrs };
                            cur_attrs = Vec::new();
                            let ghost done_before = done@;
                            done.push(finished);
                            proof {
                                assert(views_of(done@) =~= views_of(done_before).push(finished@));
                            }
                        },
                        Option::None => {
                            proof {
                                assert(attrs_map(cur_attrs@) =~= Map::<Seq<char>, Seq<char>>::empty());
                            }
                        },
                    }
                    cur_name = Some(nm);
                    proof {
                        assert(cur_attrs@.len() == 0);
                        assert(attrs_map(cur_attrs@) =~= Map::<Seq<char>, Seq<char>>::empty());
                    }
                },
                Option::None => {
                    if cur_name.is_some() {
                        match try_key_value(line) {
                            Option::Some((k, v)) => {
                                insert_attr(&mut cur_attrs, k, v);
                            },
                            Option::None => {},
                        }
                    }
                },
            }
        }
        proof {
            assert(run_lines(processed) == step_line(st, raw@));
        }
        if e == n {
            break;
        }
        pos = e + 1;
    }
    match cur_name {
        Option::Some(nm) => {
            let finished = Profile { name: nm, attributes: cur_attrs };
            let ghost done_before = done@;
            done.push(finished);
            proof {
                assert(views_of(done@) =~= views_of(done_before).push(finished@));
            }
        },
        Option::None => {},
    }
    proof {
        assert(views_of(done@) == finish(run_lines(split_lines(content@))));
    }
    sort_profiles_vec(done)
}

/// Returns whether some profile in the collection has exactly this name.
pub fn has_profile_named(profiles: &Vec<Profile>, name: &str) -> (r: bool)
    ensures
        r == exists|i: int| 0 <= i < profiles@.len() && (#[trigger] profiles@[i])@.name == name@,
{
    let n = profiles.len();
    let mut i: usize = 0;
    while i < n
        invariant
            0 <= i <= n,
            n == profiles@.len(),
            forall|j: int| 0 <= j < i ==> (#[trigger] profiles@[j])@.name != name@,
        decreases n - i,
    {
        if str_eq(profiles[i].name.as_str(), name) {
            return true;
        }
        i = i + 1;
    }
    false
}

} // verus!
