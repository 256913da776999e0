//! Agent skills: manifests, the naming rules they obey, and where they live.
use vstd::prelude::*;

use crate::text::{chars_eq, chars_of, str_is, is_ctrl, is_ws, is_control, is_whitespace};

verus! {

broadcast use vstd::string::group_string_axioms;

pub const SYSTEM_SKILLS_HOME: &'static str = "/usr/share/skills";
pub const USER_SKILLS_HOME: &'static str = "/home/user/skills";
pub const USER_SKILLS_ROOT: &'static str = "skills";

/// The longest skill name, in characters.
pub const MAX_NAME_CHARS: usize = 64;
/// The longest description, in characters.
pub const MAX_DESCRIPTION_CHARS: usize = 1024;
/// The longest compatibility note, in characters.
pub const MAX_COMPATIBILITY_CHARS: usize = 500;

/// The frontmatter of a `SKILL.md` file.
#[derive(Clone, Debug)]
pub struct SkillManifest {
    pub name: String,
    pub description: String,
    pub license: Option<String>,
    pub compatibility: Option<String>,
    /// Free-form key/value pairs, ordered by key.
    pub metadata: Option<Vec<(String, String)>>,
    pub allowed_tools: Option<String>,
}

#[derive(Clone, Copy, Debug, PartialEq, Eq, Structural)]
pub enum SkillOrigin {
    System,
    User,
}

#[derive(Clone, Debug)]
pub struct Skill {
    pub manifest: SkillManifest,
    pub content: String,
    pub path: String,
    pub origin: SkillOrigin,
}

impl crate::sorting::Named for Skill {
    open spec fn key(&self) -> Seq<char> {
        self.manifest.name@
    }

    fn name_chars(&self) -> (r: Vec<char>) {
        chars_of(self.manifest.name.as_str())
    }
}

#[derive(Clone, Debug)]
pub struct UserSkillView {
    pub name: String,
    pub description: String,
    pub content: String,
    pub path: String,
    pub valid: bool,
    pub error: Option<String>,
}

/// Why a skill operation failed.
#[derive(Debug)]
pub enum SkillStoreError {
    StorageUnavailable,
    Invalid(String),
    Conflict(String),
    NotFound(String),
    /// A failure below the store, with its rendered message.
    Internal(String),
}

impl SkillStoreError {
    pub open spec fn spec_message(&self) -> Seq<char> {
        match self {
            SkillStoreError::StorageUnavailable => "user skill storage is unavailable"@,
            SkillStoreError::Invalid(m) => m@,
            SkillStoreError::Conflict(m) => m@,
            SkillStoreError::NotFound(m) => m@,
            SkillStoreError::Internal(m) => m@,
        }
    }

    /// The text shown to users for this error.
    pub fn message(&self) -> (r: String)
        ensures
            r@ == self.spec_message(),
    {
        match self {
            SkillStoreError::StorageUnavailable => "user skill storage is unavailable".to_owned(),
            SkillStoreError::Invalid(m) => m.clone(),
            SkillStoreError::Conflict(m) => m.clone(),
            SkillStoreError::NotFound(m) => m.clone(),
            SkillStoreError::Internal(m) => m.clone(),
        }
    }
}

pub struct SkillManifestV {
    pub name: Seq<char>,
    pub description: Seq<char>,
    pub license: Option<Seq<char>>,
    pub compatibility: Option<Seq<char>>,
    pub metadata: Option<Seq<(Seq<char>, Seq<char>)>>,
    pub allowed_tools: Option<Seq<char>>,
}

pub open spec fn opt_view(o: Option<String>) -> Option<Seq<char>> {
    match o {
        Some(s) => Some(s@),
        None => None,
    }
}

pub open spec fn pair_views(v: Seq<(String, String)>) -> Seq<(Seq<char>, Seq<char>)> {
    v.map_values(|p: (String, String)| (p.0@, p.1@))
}

impl View for SkillManifest {
    type V = SkillManifestV;

    open spec fn view(&self) -> SkillManifestV {
        SkillManifestV {
            name: self.name@,
            description: self.description@,
            license: opt_view(self.license),
            compatibility: opt_view(self.compatibility),
            metadata: match self.metadata {
                Some(v) => Some(pair_views(v@)),
                None => None,
            },
            allowed_tools: opt_view(self.allowed_tools),
        }
    }
}

pub struct SkillV {
    pub manifest: SkillManifestV,
    pub content: Seq<char>,
    pub path: Seq<char>,
    pub origin: SkillOrigin,
}

impl View for Skill {
    type V = SkillV;

    open spec fn view(&self) -> SkillV {
        SkillV { manifest: self.manifest@, content: self.content@, path: self.path@, origin: self.origin }
    }
}

pub struct UserSkillViewV {
    pub name: Seq<char>,
    pub description: Seq<char>,
    pub content: Seq<char>,
    pub path: Seq<char>,
    pub valid: bool,
    pub error: Option<Seq<char>>,
}

impl View for UserSkillView {
    type V = UserSkillViewV;

    open spec fn view(&self) -> UserSkillViewV {
        UserSkillViewV {
            name: self.name@,
            description: self.description@,
            content: self.content@,
            path: self.path@,
            valid: self.valid,
            error: opt_view(self.error),
        }
    }
}

impl crate::sorting::Named for UserSkillView {
    open spec fn key(&self) -> Seq<char> {
        self.name@
    }

    fn name_chars(&self) -> (r: Vec<char>) {
        chars_of(self.name.as_str())
    }
}

pub enum StoreErrorV {
    StorageUnavailable,
    Invalid(Seq<char>),
    Conflict(Seq<char>),
    NotFound(Seq<char>),
    Internal(Seq<char>),
}

impl View for SkillStoreError {
    type V = StoreErrorV;

    open spec fn view(&self) -> StoreErrorV {
        match self {
            SkillStoreError::StorageUnavailable => StoreErrorV::StorageUnavailable,
            SkillStoreError::Invalid(m) => StoreErrorV::Invalid(m@),
            SkillStoreError::Conflict(m) => StoreErrorV::Conflict(m@),
            SkillStoreError::NotFound(m) => StoreErrorV::NotFound(m@),
            SkillStoreError::Internal(m) => StoreErrorV::Internal(m@),
        }
    }
}

pub fn copy_opt(o: &Option<String>) -> (r: Option<String>)
    ensures
        opt_view(r) == opt_view(*o),
{
    match o {
        Some(s) => Some(s.clone()),
        None => None,
    }
}

/// A copy of `m`.
pub fn copy_manifest(m: &SkillManifest) -> (r: SkillManifest)
    ensures
        r@ == m@,
{
    let metadata = match &m.metadata {
        None => None,
        Some(v) => {
            let mut out: Vec<(String, String)> = Vec::new();
            let mut i: usize = 0;
            while i < v.len()
                invariant
                    i <= v.len(),
                    pair_views(out@) == pair_views(v@).take(i as int),
                decreases v.len() - i,
            {
                let ghost before = pair_views(out@);
                out.push((v[i].0.clone(), v[i].1.clone()));
                assert(pair_views(out@) =~= before.push((v@[i as int].0@, v@[i as int].1@)));
                assert(pair_views(v@).take(i + 1) =~= pair_views(v@).take(i as int).push(
                    pair_views(v@)[i as int],
                ));
                i += 1;
            }
            assert(pair_views(v@).take(i as int) =~= pair_views(v@));
            Some(out)
        },
    };
    SkillManifest {
        name: m.name.clone(),
        description: m.description.clone(),
        license: copy_opt(&m.license),
        compatibility: copy_opt(&m.compatibility),
        metadata,
        allowed_tools: copy_opt(&m.allowed_tools),
    }
}

/// A copy of `s`.
pub fn copy_skill(s: &Skill) -> (r: Skill)
    ensures
        r@ == s@,
{
    Skill {
        manifest: copy_manifest(&s.manifest),
        content: s.content.clone(),
        path: s.path.clone(),
        origin: s.origin,
    }
}

/// A copy of `e`.
pub fn copy_error(e: &SkillStoreError) -> (r: SkillStoreError)
    ensures
        r@ == e@,
{
    match e {
        SkillStoreError::StorageUnavailable => SkillStoreError::StorageUnavailable,
        SkillStoreError::Invalid(m) => SkillStoreError::Invalid(m.clone()),
        SkillStoreError::Conflict(m) => SkillStoreError::Conflict(m.clone()),
        SkillStoreError::NotFound(m) => SkillStoreError::NotFound(m.clone()),
        SkillStoreError::Internal(m) => SkillStoreError::Internal(m.clone()),
    }
}

// ---------------------------------------------------------------------------
// Names.
// ---------------------------------------------------------------------------

pub open spec fn name_char(c: char) -> bool {
    ('a' <= c && c <= 'z') || ('0' <= c && c <= '9') || c == '-'
}

pub open spec fn hyphen_pair(s: Seq<char>, i: int) -> bool {
    s[i] == '-' && s[i + 1] == '-'
}

pub open spec fn has_double_hyphen(s: Seq<char>) -> bool {
    exists|i: int| 0 <= i < s.len() - 1 && #[trigger] hyphen_pair(s, i)
}

pub open spec fn name_len_ok(s: Seq<char>) -> bool {
    1 <= s.len() <= MAX_NAME_CHARS
}

pub open spec fn name_hyphens_ok(s: Seq<char>) -> bool {
    s[0] != '-' && s.last() != '-' && !has_double_hyphen(s)
}

pub open spec fn name_chars_ok(s: Seq<char>) -> bool {
    forall|i: int| 0 <= i < s.len() ==> name_char(#[trigger] s[i])
}

/// A valid skill name: 1-64 characters from `a-z`, `0-9` and `-`, with no
/// hyphen at either end and no two hyphens in a row.
pub open spec fn valid_name(s: Seq<char>) -> bool {
    name_len_ok(s) && name_hyphens_ok(s) && name_chars_ok(s)
}

/// The message for the first rule that `s` breaks.
pub open spec fn name_error(s: Seq<char>) -> Seq<char> {
    if !name_len_ok(s) {
        "name must be 1-64 characters"@
    } else if !name_hyphens_ok(s) {
        "name must not start or end with a hyphen or contain consecutive hyphens"@
    } else {
        "name may only contain lowercase letters, numbers, and hyphens"@
    }
}

/// Whether `v` holds two hyphens in a row.
fn double_hyphen(v: &Vec<char>) -> (b: bool)
    ensures
        b == has_double_hyphen(v@),
{
    let mut i: usize = 0;
    while i < v.len() && i < v.len() - 1
        invariant
            forall|j: int| 0 <= j < i ==> !#[trigger] hyphen_pair(v@, j),
        decreases v.len() - i,
    {
        if v[i] == '-' && v[i + 1] == '-' {
            assert(hyphen_pair(v@, i as int));
            return true;
        }
        i += 1;
    }
    false
}

/// Checks a skill name against the naming rules.
pub fn validate_name(name: &str) -> (r: Result<(), SkillStoreError>)
    ensures
        r is Ok <==> valid_name(name@),
        r matches Err(e) ==> e matches SkillStoreError::Invalid(m) && m@ == name_error(name@),
{
    let v = chars_of(name);
    let len = v.len();
    if len == 0 || len > MAX_NAME_CHARS {
        return Err(SkillStoreError::Invalid("name must be 1-64 characters".to_owned()));
    }
    if v[0] == '-' || v[len - 1] == '-' || double_hyphen(&v) {
        return Err(
            SkillStoreError::Invalid(
                "name must not start or end with a hyphen or contain consecutive hyphens".to_owned(),
            ),
        );
    }
    let mut i: usize = 0;
    while i < len
        invariant
            len == v.len(),
            v@ == name@,
            name_len_ok(name@),
            name_hyphens_ok(name@),
            forall|j: int| 0 <= j < i ==> name_char(#[trigger] v@[j]),
        decreases len - i,
    {
        let c = v[i];
        if !(('a' <= c && c <= 'z') || ('0' <= c && c <= '9') || c == '-') {
            return Err(
                SkillStoreError::Invalid(
                    "name may only contain lowercase letters, numbers, and hyphens".to_owned(),
                ),
            );
        }
        i += 1;
    }
    Ok(())
}

/// A usable directory name: one path segment that is not `.` or `..`, with
/// no control character.
pub open spec fn valid_directory_name(s: Seq<char>) -> bool {
    &&& s.len() > 0
    &&& s != seq!['.']
    &&& s != seq!['.', '.']
    &&& forall|i: int| 0 <= i < s.len() ==> #[trigger] s[i] != '/' && !is_ctrl(s[i])
}

/// Checks that `name` can be a direct child of the user skills directory.
pub fn validate_directory_name(name: &str) -> (r: Result<(), SkillStoreError>)
    ensures
        r is Ok <==> valid_directory_name(name@),
        r matches Err(e) ==> e matches SkillStoreError::Invalid(m) && m@
            == "skill directory must be one direct child of /home/user/skills"@,
{
    let v = chars_of(name);
    let ok = v.len() > 0 && !(v.len() == 1 && v[0] == '.') && !(v.len() == 2 && v[0] == '.'
        && v[1] == '.');
    proof {
        if v@.len() == 1 && v@ == seq!['.'] {
            assert(v@[0] == '.');
        }
        if v@.len() == 2 && v@ == seq!['.', '.'] {
            assert(v@[0] == '.' && v@[1] == '.');
        }
        if v@.len() == 1 && v@[0] == '.' {
            assert(v@ =~= seq!['.']);
        }
        if v@.len() == 2 && v@[0] == '.' && v@[1] == '.' {
            assert(v@ =~= seq!['.', '.']);
        }
    }
    let err = Err(
        SkillStoreError::Invalid(
            "skill directory must be one direct child of /home/user/skills".to_owned(),
        ),
    );
    if !ok {
        return err;
    }
    let mut i: usize = 0;
    while i < v.len()
        invariant
            v@ == name@,
            i <= v.len(),
            forall|j: int| 0 <= j < i ==> #[trigger] v@[j] != '/' && !is_ctrl(v@[j]),
            v@.len() > 0 && v@ != seq!['.'] && v@ != seq!['.', '.'],
            err matches Err(SkillStoreError::Invalid(m)) && m@
                == "skill directory must be one direct child of /home/user/skills"@,
        decreases v.len() - i,
    {
        if v[i] == '/' || is_control(v[i]) {
            return err;
        }
        i += 1;
    }
    Ok(())
}

// ---------------------------------------------------------------------------
// Manifests.
// ---------------------------------------------------------------------------

/// Blank text: nothing but whitespace, as `str::trim` sees it.
pub open spec fn blank(s: Seq<char>) -> bool {
    forall|i: int| 0 <= i < s.len() ==> is_ws(#[trigger] s[i])
}

/// Whether every character of `v` is whitespace.
pub fn is_blank(v: &Vec<char>) -> (b: bool)
    ensures
        b == blank(v@),
{
    let mut i: usize = 0;
    while i < v.len()
        invariant
            forall|j: int| 0 <= j < i ==> is_ws(#[trigger] v@[j]),
        decreases v.len() - i,
    {
        if !is_whitespace(v[i]) {
            return false;
        }
        i += 1;
    }
    true
}

/// Text that is not blank and has at most `max` characters.
pub open spec fn bounded_text(s: Seq<char>, max: nat) -> bool {
    !blank(s) && s.len() <= max
}

pub open spec fn compatibility_ok(c: Option<String>) -> bool {
    match c {
        None => true,
        Some(s) => bounded_text(s@, MAX_COMPATIBILITY_CHARS as nat),
    }
}

/// What `validate_manifest` decides: `None` when the manifest is valid for a
/// directory called `dir`, else the message of the first rule it breaks.
pub open spec fn manifest_error(m: SkillManifest, dir: Seq<char>) -> Option<Seq<char>> {
    if !valid_name(m.name@) {
        Some(name_error(m.name@))
    } else if m.name@ != dir {
        Some(
            "skill name '"@ + m.name@ + "' must match directory '"@ + dir + "'"@,
        )
    } else if !bounded_text(m.description@, MAX_DESCRIPTION_CHARS as nat) {
        Some("description must be 1-1024 characters"@)
    } else if !compatibility_ok(m.compatibility) {
        Some("compatibility must be 1-500 characters"@)
    } else {
        None
    }
}

/// The concatenation of three strings.
fn concat3(a: &str, b: &str, c: &str) -> (r: String)
    ensures
        r@ == a@ + b@ + c@,
{
    let mut s = a.to_owned();
    push_str(&mut s, b);
    push_str(&mut s, c);
    s
}

/// Appends `t` to `s`.
pub fn push_str(s: &mut String, t: &str)
    ensures
        final(s)@ == old(s)@ + t@,
{
    let v = chars_of(t);
    let ghost start = s@;
    let mut i: usize = 0;
    while i < v.len()
        invariant
            v@ == t@,
            i <= v.len(),
            s@ == start + v@.take(i as int),
        decreases v.len() - i,
    {
        crate::text::push_char(s, v[i]);
        i += 1;
        assert(v@.take(i as int) == v@.take(i - 1).push(v@[i - 1]));
    }
    assert(v@.take(v.len() as int) == v@);
}

/// Checks a manifest for the directory it is stored under.
pub fn validate_manifest(manifest: &SkillManifest, directory_name: &str) -> (r: Result<
    (),
    SkillStoreError,
>)
    ensures
        r is Ok <==> manifest_error(*manifest, directory_name@) is None,
        r matches Err(e) ==> e matches SkillStoreError::Invalid(msg) && Some(msg@)
            == manifest_error(*manifest, directory_name@),
{
    match validate_name(manifest.name.as_str()) {
        Ok(()) => {},
        Err(e) => {
            return Err(e);
        },
    }
    let nv = chars_of(manifest.name.as_str());
    let dv = chars_of(directory_name);
    if !chars_eq(nv.as_slice(), dv.as_slice()) {
        let head = concat3("skill name '", manifest.name.as_str(), "' must match directory '");
        let msg = concat3(head.as_str(), directory_name, "'");
        return Err(SkillStoreError::Invalid(msg));
    }
    let d = chars_of(manifest.description.as_str());
    if is_blank(&d) || d.len() > MAX_DESCRIPTION_CHARS {
        return Err(SkillStoreError::Invalid("description must be 1-1024 characters".to_owned()));
    }
    match &manifest.compatibility {
        Some(c) => {
            let cv = chars_of(c.as_str());
            if is_blank(&cv) || cv.len() > MAX_COMPATIBILITY_CHARS {
                return Err(
                    SkillStoreError::Invalid("compatibility must be 1-500 characters".to_owned()),
                );
            }
        },
        None => {},
    }
    Ok(())
}

// ---------------------------------------------------------------------------
// `SKILL.md` files.
// ---------------------------------------------------------------------------

/// Index of the first `\n` at or after `from`, or the end of `s`.
pub open spec fn line_end(s: Seq<char>, from: int) -> int
    decreases s.len() - from,
{
    if from < 0 || from >= s.len() {
        s.len() as int
    } else if s[from] == '\n' {
        from
    } else {
        line_end(s, from + 1)
    }
}

pub proof fn lemma_line_end(s: Seq<char>, from: int)
    requires
        0 <= from <= s.len(),
    ensures
        from <= line_end(s, from) <= s.len(),
        line_end(s, from) < s.len() ==> s[line_end(s, from)] == '\n',
        forall|j: int| from <= j < line_end(s, from) ==> s[j] != '\n',
    decreases s.len() - from,
{
    if from < s.len() && s[from] != '\n' {
        lemma_line_end(s, from + 1);
    }
}

/// The first line at or after `from` that reads `---` (without its line
/// ending): where it starts and where the next line starts.
pub open spec fn closing_line(s: Seq<char>, from: int) -> Option<(int, int)>
    decreases s.len() - from,
{
    if from < 0 || from >= s.len() {
        None
    } else {
        let e = line_end(s, from);
        let next = if e < s.len() {
            e + 1
        } else {
            e
        };
        proof {
            lemma_line_end(s, from);
        }
        if crate::text::strip_cr(s.subrange(from, e)) == "---"@ {
            Some((from, next))
        } else {
            closing_line(s, next)
        }
    }
}

/// `s` without one leading line break.
pub open spec fn strip_leading_break(s: Seq<char>) -> Seq<char> {
    if s.len() >= 2 && s[0] == '\r' && s[1] == '\n' {
        s.skip(2)
    } else if s.len() >= 1 && s[0] == '\n' {
        s.skip(1)
    } else {
        s
    }
}

/// What follows the opening `---` line, if the file has one.
pub open spec fn after_opening(raw: Seq<char>) -> Option<Seq<char>> {
    let r = crate::static_skills::without_bom(raw);
    if crate::text::has_prefix(r, "---\n"@) {
        Some(r.skip(4))
    } else if crate::text::has_prefix(r, "---\r\n"@) {
        Some(r.skip(5))
    } else {
        None
    }
}

/// The YAML frontmatter and the body of a `SKILL.md` file, or the message of
/// why the file has none.
pub open spec fn spec_split_skill_file(raw: Seq<char>) -> Result<(Seq<char>, Seq<char>), Seq<char>> {
    match after_opening(raw) {
        None => Err("SKILL.md must start with YAML frontmatter"@),
        Some(rest) => match closing_line(rest, 0) {
            None => Err("SKILL.md frontmatter is not terminated"@),
            Some((off, next)) => Ok(
                (rest.take(off), strip_leading_break(rest.skip(next))),
            ),
        },
    }
}

/// Splits a `SKILL.md` file into its YAML frontmatter and its body.
pub fn split_skill_file(raw: &str) -> (r: Result<(String, String), SkillStoreError>)
    ensures
        match (r, spec_split_skill_file(raw@)) {
            (Ok((f, b)), Ok((sf, sb))) => f@ == sf && b@ == sb,
            (Err(SkillStoreError::Invalid(m)), Err(sm)) => m@ == sm,
            _ => false,
        },
{
    let all = chars_of(raw);
    let r = if all.len() > 0 && all[0] == '\u{feff}' {
        crate::text::slice_vec(all.as_slice(), 1, all.len())
    } else {
        crate::text::copy_chars(all.as_slice())
    };
    assert(r@ == crate::static_skills::without_bom(raw@)) by {
        if all@.len() > 0 && all@[0] == '\u{feff}' {
            assert(all@.subrange(1, all@.len() as int) == all@.drop_first());
        }
    }
    let p1 = chars_of("---\n");
    let p2 = chars_of("---\r\n");
    let start = if crate::text::starts_with(r.as_slice(), p1.as_slice()) {
        proof {
            reveal_strlit("---\n");
        }
        4
    } else if crate::text::starts_with(r.as_slice(), p2.as_slice()) {
        proof {
            reveal_strlit("---\r\n");
        }
        5
    } else {
        return Err(SkillStoreError::Invalid("SKILL.md must start with YAML frontmatter".to_owned()));
    };
    let rest = crate::text::slice_vec(r.as_slice(), start, r.len());
    assert(rest@ == r@.skip(start as int));
    assert(after_opening(raw@) == Some(rest@));
    let ghost rs = rest@;
    let mut off: usize = 0;
    while off < rest.len()
        invariant
            rs == rest@,
            after_opening(raw@) == Some(rs),
            off <= rest.len(),
            closing_line(rs, 0) == closing_line(rs, off as int),
        decreases rest.len() - off,
    {
        let mut e = off;
        while e < rest.len() && rest[e] != '\n'
            invariant
                off <= e <= rest.len(),
                rs == rest@,
                line_end(rs, off as int) == line_end(rs, e as int),
            decreases rest.len() - e,
        {
            e += 1;
        }
        let next = if e < rest.len() {
            e + 1
        } else {
            e
        };
        let content_end = if e > off && rest[e - 1] == '\r' {
            e - 1
        } else {
            e
        };
        let ghost line = rs.subrange(off as int, e as int);
        assert(rs.subrange(off as int, content_end as int) == crate::text::strip_cr(line)) by {
            if e > off && rest@[e - 1] == '\r' {
                assert(line.drop_last() =~= rs.subrange(off as int, content_end as int));
            }
        }
        let dashes = ['-', '-', '-'];
        let content = crate::text::slice_vec(rest.as_slice(), off, content_end);
        if crate::text::chars_eq(content.as_slice(), dashes.as_slice()) {
            proof {
                reveal_strlit("---");
                assert(dashes@ =~= "---"@);
            }
            let front = crate::text::slice_vec(rest.as_slice(), 0, off);
            let tail = crate::text::slice_vec(rest.as_slice(), next, rest.len());
            let body = if tail.len() >= 2 && tail[0] == '\r' && tail[1] == '\n' {
                crate::text::slice_vec(tail.as_slice(), 2, tail.len())
            } else if tail.len() >= 1 && tail[0] == '\n' {
                crate::text::slice_vec(tail.as_slice(), 1, tail.len())
            } else {
                crate::text::copy_chars(tail.as_slice())
            };
            assert(front@ == rs.take(off as int));
            assert(tail@ == rs.skip(next as int));
            assert(line_end(rs, e as int) == e);
            assert(closing_line(rs, off as int) == Some((off as int, next as int)));
            assert(body@ == strip_leading_break(tail@)) by {
                if tail@.len() >= 2 && tail@[0] == '\r' && tail@[1] == '\n' {
                    assert(body@ == tail@.skip(2));
                } else if tail@.len() >= 1 && tail@[0] == '\n' {
                    assert(body@ == tail@.skip(1));
                }
            }
            return Ok(
                (crate::text::string_of(front.as_slice()), crate::text::string_of(body.as_slice())),
            );
        }
        proof {
            reveal_strlit("---");
            assert(dashes@ =~= "---"@);
        }
        assert(line_end(rs, e as int) == e);
        off = next;
    }
    Err(SkillStoreError::Invalid("SKILL.md frontmatter is not terminated".to_owned()))
}

/// A skill from its parsed manifest and body, once the manifest passes
/// validation for the directory it lives in.
pub fn finish_skill(
    manifest: SkillManifest,
    body: String,
    directory_name: &str,
    origin: SkillOrigin,
    path: &str,
) -> (r: Result<Skill, SkillStoreError>)
    ensures
        r is Ok <==> manifest_error(manifest, directory_name@) is None,
        r matches Ok(s) ==> s.manifest == manifest && s.content@ == body@ && s.path@ == path@
            && s.origin == origin,
        r matches Err(e) ==> e matches SkillStoreError::Invalid(msg) && Some(msg@)
            == manifest_error(manifest, directory_name@),
{
    match validate_manifest(&manifest, directory_name) {
        Ok(()) => Ok(Skill { manifest, content: body, path: path.to_owned(), origin }),
        Err(e) => Err(e),
    }
}

/// Path of a user skill's directory, relative to the user's tree.
pub fn user_skill_rel(name: &str) -> (r: String)
    ensures
        r@ == USER_SKILLS_ROOT@ + "/"@ + name@,
{
    let mut s = USER_SKILLS_ROOT.to_owned();
    push_str(&mut s, "/");
    push_str(&mut s, name);
    s
}

/// Path of a user skill's `SKILL.md`, relative to the user's tree.
pub fn user_manifest_path(name: &str) -> (r: String)
    ensures
        r@ == USER_SKILLS_ROOT@ + "/"@ + name@ + "/SKILL.md"@,
{
    let mut s = user_skill_rel(name);
    push_str(&mut s, "/SKILL.md");
    s
}

// ---------------------------------------------------------------------------
// System skills.
// ---------------------------------------------------------------------------

/// The text whose UTF-8 encoding is `bytes`, or `None` when `bytes` is not
/// UTF-8. Calls `std::str::from_utf8`, which succeeds exactly on valid UTF-8
/// and then holds exactly those bytes.
#[verifier::external_body]
fn utf8_text(bytes: &[u8]) -> (r: Option<String>)
    ensures
        r is Some <==> vstd::utf8::valid_utf8(bytes@),
        r matches Some(s) ==> vstd::utf8::encode_utf8(s@) == bytes@,
{
    match std::str::from_utf8(bytes) {
        Ok(s) => Some(s.to_owned()),
        Err(_) => None,
    }
}

/// `i` is the first file of `dir` named `SKILL.md`.
pub open spec fn first_skill_md(dir: crate::embedded::EmbeddedDir, i: int) -> bool {
    &&& 0 <= i < dir.files@.len()
    &&& crate::embedded::file_name(dir.files@[i].path@) == "SKILL.md"@
    &&& forall|j: int|
        0 <= j < i ==> crate::embedded::file_name(#[trigger] dir.files@[j].path@) != "SKILL.md"@
}

/// The name of a system skill's directory, its `SKILL.md` text and the path
/// the agent sees it under; or why the directory is not a skill: it has no
/// `SKILL.md`, or its first `SKILL.md` is not UTF-8.
pub fn system_skill_source(dir: &crate::embedded::EmbeddedDir) -> (r: Result<(String, String, String), String>)
    ensures
        ({
            let name = crate::embedded::file_name(dir.path@);
            match r {
                Ok((n, raw, home)) => n@ == name && home@ == SYSTEM_SKILLS_HOME@ + "/"@ + name
                    && exists|i: int|
                    #[trigger] first_skill_md(*dir, i) && vstd::utf8::valid_utf8(
                        dir.files@[i].contents@,
                    ) && vstd::utf8::encode_utf8(raw@) == dir.files@[i].contents@,
                Err(m) => (m@ == "server/skills/"@ + name + " is missing SKILL.md"@ && forall|i: int|
                    0 <= i < dir.files@.len() ==> crate::embedded::file_name(
                        #[trigger] dir.files@[i].path@,
                    ) != "SKILL.md"@) || (m@ == "server/skills/"@ + name + "/SKILL.md is not UTF-8"@
                    && exists|i: int|
                    #[trigger] first_skill_md(*dir, i) && !vstd::utf8::valid_utf8(
                        dir.files@[i].contents@,
                    )),
            }
        }),
        forall|i: int| #[trigger]
            first_skill_md(*dir, i) ==> (r is Ok <==> vstd::utf8::valid_utf8(
                dir.files@[i].contents@,
            )),
{
    let name = crate::text::string_of(crate::embedded::file_name_of(dir.path.as_str()).as_slice());
    let mut i: usize = 0;
    while i < dir.files.len()
        invariant
            i <= dir.files.len(),
            name@ == crate::embedded::file_name(dir.path@),
            forall|j: int|
                0 <= j < i ==> crate::embedded::file_name(#[trigger] dir.files@[j].path@) != "SKILL.md"@,
        decreases dir.files.len() - i,
    {
        let f = crate::embedded::file_name_of(dir.files[i].path.as_str());
        if str_is("SKILL.md", f.as_slice()) {
            assert(crate::embedded::file_name(dir.files@[i as int].path@) == "SKILL.md"@);
            assert(first_skill_md(*dir, i as int));
            proof {
                assert forall|k: int| #[trigger] first_skill_md(*dir, k) implies k == i by {
                    if k < i {
                        assert(crate::embedded::file_name(dir.files@[k].path@) != "SKILL.md"@);
                    }
                    if k > i {
                        assert(crate::embedded::file_name(dir.files@[i as int].path@) != "SKILL.md"@);
                    }
                }
            }
            return match utf8_text(dir.files[i].contents.as_slice()) {
                Some(raw) => {
                    let mut home = SYSTEM_SKILLS_HOME.to_owned();
                    push_str(&mut home, "/");
                    push_str(&mut home, name.as_str());
                    Ok((name, raw, home))
                },
                None => {
                    let mut m = "server/skills/".to_owned();
                    push_str(&mut m, name.as_str());
                    push_str(&mut m, "/SKILL.md is not UTF-8");
                    Err(m)
                },
            };
        }
        i += 1;
    }
    let mut m = "server/skills/".to_owned();
    push_str(&mut m, name.as_str());
    push_str(&mut m, " is missing SKILL.md");
    Err(m)
}

/// System skills in name order (a stable sort).
pub fn sort_skills(skills: Vec<Skill>) -> (r: Vec<Skill>)
    ensures
        r@ == crate::sorting::sort_by_key(skills@),
{
    crate::sorting::sort_by_name(skills)
}

/// The first system skill called `name`.
pub fn find_system_skill<'a>(skills: &'a [Skill], name: &str) -> (r: Option<&'a Skill>)
    ensures
        r is None <==> forall|i: int| 0 <= i < skills@.len() ==> #[trigger] skills@[i].manifest.name@ != name@,
        r matches Some(s) ==> exists|i: int|
            0 <= i < skills@.len() && *s == skills@[i] && skills@[i].manifest.name@ == name@
                && forall|j: int| 0 <= j < i ==> #[trigger] skills@[j].manifest.name@ != name@,
{
    let target = chars_of(name);
    let mut i: usize = 0;
    while i < skills.len()
        invariant
            i <= skills@.len(),
            target@ == name@,
            forall|j: int| 0 <= j < i ==> #[trigger] skills@[j].manifest.name@ != name@,
        decreases skills.len() - i,
    {
        if str_is(skills[i].manifest.name.as_str(), target.as_slice()) {
            return Some(&skills[i]);
        }
        i += 1;
    }
    None
}

} // verus!
