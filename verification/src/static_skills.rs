//! Skills shipped with the server: their `+++` TOML frontmatter, lookup by
//! name, and search.
use vstd::prelude::*;

use crate::text::{
    chars_of, contains, contains_seq, extend, join, join_range, lines, lines_of, slice_vec,
    str_is, string_of, trim, trimmed, views, Strip,
};

verus! {

broadcast use vstd::string::group_string_axioms;

/// A skill baked into the binary.
#[derive(Clone, Debug)]
pub struct StaticSkill {
    pub name: String,
    pub title: String,
    pub description: String,
    pub content: String,
}

impl crate::sorting::Named for StaticSkill {
    open spec fn key(&self) -> Seq<char> {
        self.name@
    }

    fn name_chars(&self) -> (r: Vec<char>) {
        chars_of(self.name.as_str())
    }
}

/// What `str::to_lowercase` returns: the Unicode lowercase mapping of each
/// character, which may change the length.
pub uninterp spec fn lowercase(s: Seq<char>) -> Seq<char>;

/// Calls `str::to_lowercase`; the result is named, not described.
#[verifier::external_body]
pub(crate) fn to_lowercase(s: &str) -> (r: String)
    ensures
        r@ == lowercase(s@),
{
    s.to_lowercase()
}

pub open spec fn spec_matches_query(skill: StaticSkill, query: Seq<char>) -> bool {
    contains_seq(lowercase(skill.name@), query) || contains_seq(lowercase(skill.title@), query)
        || contains_seq(lowercase(skill.description@), query)
}

/// Whether the lowercased name, title or description contains `query`.
pub fn skill_matches_query(skill: &StaticSkill, query: &str) -> (r: bool)
    ensures
        r == spec_matches_query(*skill, query@),
{
    let q = chars_of(query);
    let name = to_lowercase(skill.name.as_str());
    if contains(chars_of(name.as_str()).as_slice(), q.as_slice()) {
        return true;
    }
    let title = to_lowercase(skill.title.as_str());
    if contains(chars_of(title.as_str()).as_slice(), q.as_slice()) {
        return true;
    }
    let description = to_lowercase(skill.description.as_str());
    contains(chars_of(description.as_str()).as_slice(), q.as_slice())
}

/// A skill matches a query exactly when the query occurs in its lowercased
/// name, in its lowercased title or in its lowercased description: an
/// occurrence in any one of the three is enough, whatever the others hold,
/// and the empty query matches every skill.
pub proof fn lemma_query_searches_name_title_and_description(skill: StaticSkill, query: Seq<char>, i: int)
    ensures
        crate::text::occurs_at(lowercase(skill.name@), query, i) ==> spec_matches_query(skill, query),
        crate::text::occurs_at(lowercase(skill.title@), query, i) ==> spec_matches_query(skill, query),
        crate::text::occurs_at(lowercase(skill.description@), query, i) ==> spec_matches_query(skill, query),
        spec_matches_query(skill, query) ==> exists|k: int|
            crate::text::occurs_at(lowercase(skill.name@), query, k) || crate::text::occurs_at(
                lowercase(skill.title@),
                query,
                k,
            ) || crate::text::occurs_at(lowercase(skill.description@), query, k),
        query.len() == 0 ==> spec_matches_query(skill, query),
{
    if query.len() == 0 {
        assert(lowercase(skill.name@).subrange(0, 0) =~= query);
        assert(crate::text::occurs_at(lowercase(skill.name@), query, 0));
    }
    if spec_matches_query(skill, query) {
        if contains_seq(lowercase(skill.name@), query) {
            let k = choose|k: int| #[trigger] crate::text::occurs_at(lowercase(skill.name@), query, k);
            assert(crate::text::occurs_at(lowercase(skill.name@), query, k));
        } else if contains_seq(lowercase(skill.title@), query) {
            let k = choose|k: int| #[trigger] crate::text::occurs_at(lowercase(skill.title@), query, k);
            assert(crate::text::occurs_at(lowercase(skill.title@), query, k));
        } else {
            let k = choose|k: int| #[trigger] crate::text::occurs_at(lowercase(skill.description@), query, k);
            assert(crate::text::occurs_at(lowercase(skill.description@), query, k));
        }
    }
}

/// The first skill called `name`.
pub fn find_static_skill<'a>(skills: &'a [StaticSkill], name: &str) -> (r: Option<&'a StaticSkill>)
    ensures
        r is None <==> forall|i: int| 0 <= i < skills@.len() ==> #[trigger] skills@[i].name@ != name@,
        r matches Some(s) ==> exists|i: int|
            0 <= i < skills@.len() && *s == skills@[i] && skills@[i].name@ == name@ && forall|j: int|
                0 <= j < i ==> #[trigger] skills@[j].name@ != name@,
{
    let target = chars_of(name);
    let mut i: usize = 0;
    while i < skills.len()
        invariant
            i <= skills@.len(),
            target@ == name@,
            forall|j: int| 0 <= j < i ==> #[trigger] skills@[j].name@ != name@,
        decreases skills.len() - i,
    {
        if str_is(skills[i].name.as_str(), target.as_slice()) {
            return Some(&skills[i]);
        }
        i += 1;
    }
    None
}

/// The views of a list of strings.
pub open spec fn names_of(v: Seq<String>) -> Seq<Seq<char>> {
    v.map_values(|s: String| s@)
}

/// One of the first `n` skills is called `x`.
pub open spec fn has_name(skills: Seq<StaticSkill>, x: Seq<char>, n: int) -> bool {
    exists|j: int| 0 <= j < n && #[trigger] skills[j].name@ == x
}

/// The distinct names of `skills`, in order of first appearance.
pub fn static_skill_names(skills: &[StaticSkill]) -> (r: Vec<String>)
    ensures
        names_of(r@).no_duplicates(),
        forall|x: Seq<char>| #[trigger] names_of(r@).contains(x) <==> has_name(skills@, x, skills@.len() as int),
{
    let mut names: Vec<String> = Vec::new();
    let mut i: usize = 0;
    while i < skills.len()
        invariant
            i <= skills@.len(),
            names_of(names@).no_duplicates(),
            forall|x: Seq<char>| #[trigger] names_of(names@).contains(x) <==> has_name(skills@, x, i as int),
        decreases skills.len() - i,
    {
        let ghost nv = names_of(names@);
        let cur = chars_of(skills[i].name.as_str());
        let mut seen = false;
        let mut k: usize = 0;
        while k < names.len()
            invariant
                k <= names.len(),
                nv == names_of(names@),
                cur@ == skills@[i as int].name@,
                seen <==> exists|m: int| 0 <= m < k && nv[m] == cur@,
            decreases names.len() - k,
        {
            assert(nv[k as int] == names@[k as int]@);
            if str_is(names[k].as_str(), cur.as_slice()) {
                seen = true;
            }
            k += 1;
        }
        proof {
            if seen {
                let m = choose|m: int| 0 <= m < k && nv[m] == cur@;
                assert(nv.contains(cur@));
            } else {
                assert(!nv.contains(cur@));
            }
        }
        if !seen {
            names.push(skills[i].name.clone());
            assert(names_of(names@) =~= nv.push(cur@));
        }
        i += 1;
        proof {
            let nv2 = names_of(names@);
            assert forall|x: Seq<char>| #[trigger] nv2.contains(x) <==> has_name(skills@, x, i as int) by {
                if nv2.contains(x) {
                    if !(nv.contains(x)) {
                        assert(x == cur@);
                        assert(skills@[i - 1].name@ == x);
                    }
                }
                if has_name(skills@, x, i as int) {
                    let j = choose|j: int| 0 <= j < i && #[trigger] skills@[j].name@ == x;
                    if j < i - 1 {
                        assert(nv.contains(x));
                        let m = choose|m: int| 0 <= m < nv.len() && nv[m] == x;
                        assert(nv2[m] == x);
                    } else if !seen {
                        assert(nv2[nv2.len() - 1] == x);
                    }
                }
            }
        }
    }
    names
}

// ---------------------------------------------------------------------------
// `+++` frontmatter.
// ---------------------------------------------------------------------------

/// `s` without a leading byte-order mark.
pub open spec fn without_bom(s: Seq<char>) -> Seq<char> {
    if s.len() > 0 && s[0] == '\u{feff}' {
        s.drop_first()
    } else {
        s
    }
}

/// A line that reads `+++` once trimmed.
pub open spec fn fence_line(l: Seq<char>) -> bool {
    trim(l) == "+++"@
}

/// The first fence line at or after `from`.
pub open spec fn first_fence(ls: Seq<Seq<char>>, from: int) -> Option<int>
    decreases ls.len() - from,
{
    if from < 0 || from >= ls.len() {
        None
    } else if fence_line(ls[from]) {
        Some(from)
    } else {
        first_fence(ls, from + 1)
    }
}

/// Each line followed by a newline.
pub open spec fn with_newlines(ls: Seq<Seq<char>>) -> Seq<char>
    decreases ls.len(),
{
    if ls.len() == 0 {
        Seq::empty()
    } else {
        with_newlines(ls.drop_last()) + ls.last() + seq!['\n']
    }
}

/// The TOML frontmatter of a skill file and its trimmed body, when the file
/// opens with a `+++` line that a later `+++` line closes.
pub open spec fn spec_toml_frontmatter(raw: Seq<char>) -> Option<(Seq<char>, Seq<char>)> {
    let ls = lines(without_bom(raw));
    if ls.len() == 0 || !fence_line(ls[0]) {
        None
    } else {
        match first_fence(ls, 1) {
            None => None,
            Some(k) => Some(
                (with_newlines(ls.subrange(1, k)), trim(join(ls.skip(k + 1), "\n"@))),
            ),
        }
    }
}

fn is_fence(line: &Vec<char>) -> (b: bool)
    ensures
        b == fence_line(line@),
{
    let t = trimmed(line.as_slice(), Strip::Whitespace);
    str_is("+++", t.as_slice())
}

/// Splits a `+++` TOML frontmatter block from the Markdown body.
pub fn split_toml_frontmatter(raw: &str) -> (r: Option<(String, String)>)
    ensures
        match (r, spec_toml_frontmatter(raw@)) {
            (Some((f, b)), Some((sf, sb))) => f@ == sf && b@ == sb,
            (None, None) => true,
            _ => false,
        },
{
    let all = chars_of(raw);
    let body_chars = if all.len() > 0 && all[0] == '\u{feff}' {
        slice_vec(all.as_slice(), 1, all.len())
    } else {
        slice_vec(all.as_slice(), 0, all.len())
    };
    assert(body_chars@ == without_bom(raw@)) by {
        if all@.len() > 0 && all@[0] == '\u{feff}' {
            assert(all@.subrange(1, all@.len() as int) == all@.drop_first());
        } else {
            assert(all@.subrange(0, all@.len() as int) == all@);
        }
    }
    let ls = lines_of(body_chars.as_slice());
    let ghost lv = views(ls@);
    if ls.len() == 0 || !is_fence(&ls[0]) {
        return None;
    }
    let mut front: Vec<char> = Vec::new();
    let mut k: usize = 1;
    while k < ls.len() && !is_fence(&ls[k])
        invariant
            1 <= k <= ls.len(),
            lv == views(ls@),
            first_fence(lv, 1) == first_fence(lv, k as int),
            front@ == with_newlines(lv.subrange(1, k as int)),
        decreases ls.len() - k,
    {
        extend(&mut front, ls[k].as_slice());
        front.push('\n');
        assert(lv.subrange(1, k + 1).drop_last() == lv.subrange(1, k as int));
        k += 1;
    }
    if k == ls.len() {
        return None;
    }
    let sep = ['\n'];
    let body = join_range(&ls, k + 1, ls.len(), sep.as_slice());
    proof {
        assert(lv.subrange(k + 1, lv.len() as int) == lv.skip(k + 1));
        assert(sep@ =~= "\n"@) by {
            reveal_strlit("\n");
        }
    }
    let body = trimmed(body.as_slice(), Strip::Whitespace);
    Some((string_of(front.as_slice()), string_of(body.as_slice())))
}

/// Whether a file of the skill tree is Markdown (`.md`).
pub fn is_markdown(path: &str) -> (r: bool)
    ensures
        r == (crate::embedded::path_extension(path@) == Some("md"@)),
{
    match crate::embedded::extension_of(path) {
        Some(e) => str_is("md", e.as_slice()),
        None => false,
    }
}

/// Embedded skills in name order (a stable sort).
pub fn sort_skills(skills: Vec<StaticSkill>) -> (r: Vec<StaticSkill>)
    ensures
        r@ == crate::sorting::sort_by_key(skills@),
{
    crate::sorting::sort_by_name(skills)
}

} // verus!
