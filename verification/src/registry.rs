//! The module registry: a module is a user-authored script whose header
//! comments declare its metadata. Files lie under one directory per
//! author, each with the script extension; the registry resolves a
//! reference either by its short name or by `author/name` and detects
//! short-name collisions at lookup time.
use crate::chars::{
    chars_eq_str, chars_to_string, find_char, lemma_find_char, lemma_find_char_at,
    lemma_find_char_none, str_to_chars,
};
use vstd::prelude::*;

verus! {

/// The comment token that opens a header line.
pub open spec fn comment_start(s: Seq<char>) -> bool {
    s.len() >= 3 && s[0] == '-' && s[1] == '-' && s[2] == ' '
}

/// The declared metadata of a module: description, version, and the
/// optional argument declaration, read from leading `-- Key: value`
/// comment lines. The header ends at the first line that does not start
/// with the comment token; a malformed header line, an unknown key, or a
/// missing description or version fails the parse.
pub open spec fn spec_header(
    s: Seq<char>,
    d: Option<Seq<char>>,
    v: Option<Seq<char>>,
    a: Option<Seq<char>>,
) -> Option<(Seq<char>, Seq<char>, Option<Seq<char>>)>
    decreases s.len(),
{
    if !comment_start(s) {
        if d is Some && v is Some {
            Some((d.unwrap(), v.unwrap(), a))
        } else {
            None
        }
    } else {
        let line_end = match find_char(s, '\n') {
            Some(i) => if 3 <= i < s.len() {
                i
            } else {
                s.len() as int
            },
            None => s.len() as int,
        };
        let line = s.subrange(0, line_end);
        let rest = if line_end < s.len() {
            s.subrange(line_end + 1, s.len() as int)
        } else {
            Seq::<char>::empty()
        };
        let body = line.subrange(3, line.len() as int);
        match find_char(body, ':') {
            Some(ci) => if 0 <= ci && ci + 1 < body.len() && body[ci + 1] == ' ' {
                let key = body.subrange(0, ci);
                let val = body.subrange(ci + 2, body.len() as int);
                if key == "Description"@ {
                    spec_header(rest, Some(val), v, a)
                } else if key == "Version"@ {
                    spec_header(rest, d, Some(val), a)
                } else if key == "Argument"@ {
                    spec_header(rest, d, v, Some(val))
                } else {
                    None
                }
            } else {
                None
            },
            None => None,
        }
    }
}

/// View of an optional string.
pub open spec fn opt_view(o: Option<String>) -> Option<Seq<char>> {
    match o {
        Some(s) => Some(s@),
        None => None,
    }
}

/// A module file handed in by the directory walk: the author directory's
/// name, the file's name, and the file's text.
#[derive(Debug)]
pub struct ModuleFile {
    pub author: String,
    pub filename: String,
    pub code: String,
}

/// The registry could not load one module; the error names it.
#[derive(Debug)]
pub struct LoadError {
    pub author: String,
    pub module: String,
}

/// A reference did not resolve: unknown, or short and shipped by more
/// than one author.
#[derive(Debug, Clone, Copy, PartialEq, Eq, Structural)]
pub enum GetError {
    NotFound,
    Ambiguous,
}

/// A loaded module: identity, declared metadata, and the script text.
#[derive(Debug)]
pub struct Module {
    name: String,
    author: String,
    description: String,
    version: String,
    argument: Option<String>,
    script: String,
}

impl Module {
    pub closed spec fn name_v(self) -> Seq<char> {
        self.name@
    }

    pub closed spec fn author_v(self) -> Seq<char> {
        self.author@
    }

    pub closed spec fn description_v(self) -> Seq<char> {
        self.description@
    }

    pub closed spec fn version_v(self) -> Seq<char> {
        self.version@
    }

    pub closed spec fn argument_v(self) -> Option<Seq<char>> {
        opt_view(self.argument)
    }

    pub closed spec fn script_v(self) -> Seq<char> {
        self.script@
    }

    /// The reference string `author/name`.
    pub open spec fn canonical_v(self) -> Seq<char> {
        self.author_v() + seq!['/'] + self.name_v()
    }

    /// Parses a module from its text: the header comments must declare at
    /// least a description and a version.
    pub fn load(author: &str, name: &str, code: &str) -> (r: Result<Module, LoadError>)
        ensures
            match r {
                Ok(m) => {
                    &&& spec_header(code@, None, None, None) matches Some(h) && m.description_v()
                        == h.0 && m.version_v() == h.1 && m.argument_v() == h.2
                    &&& m.name_v() == name@
                    &&& m.author_v() == author@
                    &&& m.script_v() == code@
                },
                Err(e) => spec_header(code@, None, None, None) is None && e.author@ == author@
                    && e.module@ == name@,
            },
    {
        let chars = str_to_chars(code);
        proof {
            assert(chars@.subrange(0, chars@.len() as int) =~= code@);
        }
        match parse_header(&chars, 0, None, None, None) {
            Some((description, version, argument)) => Ok(
                Module {
                    name: name.to_owned(),
                    author: author.to_owned(),
                    description,
                    version,
                    argument,
                    script: code.to_owned(),
                },
            ),
            None => Err(LoadError { author: author.to_owned(), module: name.to_owned() }),
        }
    }

    pub fn name(&self) -> (r: &str)
        ensures
            r@ == self.name_v(),
    {
        self.name.as_str()
    }

    pub fn author(&self) -> (r: &str)
        ensures
            r@ == self.author_v(),
    {
        self.author.as_str()
    }

    pub fn description(&self) -> (r: &str)
        ensures
            r@ == self.description_v(),
    {
        self.description.as_str()
    }

    pub fn version(&self) -> (r: &str)
        ensures
            r@ == self.version_v(),
    {
        self.version.as_str()
    }

    pub fn argument(&self) -> (r: &Option<String>)
        ensures
            opt_view(*r) == self.argument_v(),
    {
        &self.argument
    }

    pub fn script(&self) -> (r: &str)
        ensures
            r@ == self.script_v(),
    {
        self.script.as_str()
    }

    /// The reference string `author/name`.
    pub fn canonical(&self) -> (r: String)
        ensures
            r@ == self.canonical_v(),
    {
        let mut out = str_to_chars(self.author.as_str());
        out.push('/');
        let name = str_to_chars(self.name.as_str());
        let mut i: usize = 0;
        while i < name.len()
            invariant
                i <= name@.len(),
                name@ == self.name_v(),
                out@ == self.author_v() + seq!['/'] + name@.subrange(0, i as int),
            decreases name@.len() - i,
        {
            out.push(name[i]);
            i = i + 1;
            proof {
                assert(out@ =~= self.author_v() + seq!['/'] + name@.subrange(0, i as int));
            }
        }
        proof {
            assert(out@ =~= self.canonical_v());
        }
        chars_to_string(&out)
    }

    /// An equal copy.
    pub fn duplicate(&self) -> (m: Module)
        ensures
            m.name_v() == self.name_v(),
            m.author_v() == self.author_v(),
            m.description_v() == self.description_v(),
            m.version_v() == self.version_v(),
            m.argument_v() == self.argument_v(),
            m.script_v() == self.script_v(),
    {
        let argument = match &self.argument {
            Some(a) => Some(a.clone()),
            None => None,
        };
        Module {
            name: self.name.clone(),
            author: self.author.clone(),
            description: self.description.clone(),
            version: self.version.clone(),
            argument,
            script: self.script.clone(),
        }
    }
}

/// Reads the header entries from `chars` starting at `pos`; the
/// accumulators hold the values seen so far.
fn parse_header(
    chars: &Vec<char>,
    pos: usize,
    d: Option<String>,
    v: Option<String>,
    a: Option<String>,
) -> (r: Option<(String, String, Option<String>)>)
    requires
        pos <= chars@.len(),
    ensures
        ({
            let s = chars@.subrange(pos as int, chars@.len() as int);
            match r {
                Some(h) => spec_header(s, opt_view(d), opt_view(v), opt_view(a)) == Some(
                    (h.0@, h.1@, opt_view(h.2)),
                ),
                None => spec_header(s, opt_view(d), opt_view(v), opt_view(a)) is None,
            }
        }),
    decreases chars@.len() - pos,
{
    let ghost s = chars@.subrange(pos as int, chars@.len() as int);
    let is_comment = chars.len() - pos >= 3 && chars[pos] == '-' && chars[pos + 1] == '-'
        && chars[pos + 2] == ' ';
    proof {
        assert(is_comment == comment_start(s));
    }
    if !is_comment {
        if d.is_some() && v.is_some() {
            return Some((d.unwrap(), v.unwrap(), a));
        } else {
            return None;
        }
    }
    // the current line and the position after it
    let mut line_end: usize = pos;
    while line_end < chars.len() && chars[line_end] != '\n'
        invariant
            pos <= line_end <= chars@.len(),
            forall|j: int| pos <= j < line_end ==> chars@[j] != '\n',
        decreases chars@.len() - line_end,
    {
        line_end = line_end + 1;
    }
    proof {
        if line_end < chars@.len() {
            lemma_find_char_at(s, '\n', line_end - pos);
        } else {
            lemma_find_char_none(s, '\n');
        }
        assert(s.subrange(0, line_end - pos) =~= chars@.subrange(pos as int, line_end as int));
        // the comment token itself holds no newline, so the line covers it
        if line_end < pos + 3 {
            assert(chars@[line_end as int] == s[line_end - pos]);
            assert(false);
        }
    }
    let ghost line = s.subrange(0, line_end - pos);
    let ghost body = line.subrange(3, line.len() as int);
    proof {
        assert(body =~= chars@.subrange(pos + 3int, line_end as int));
    }
    // split the entry at the first colon, which a space must follow
    let mut colon: usize = pos + 3;
    while colon < line_end && chars[colon] != ':'
        invariant
            pos + 3 <= colon <= line_end <= chars@.len(),
            forall|j: int| pos + 3 <= j < colon ==> chars@[j] != ':',
        decreases line_end - colon,
    {
        colon = colon + 1;
    }
    if colon >= line_end {
        proof {
            lemma_find_char_none(body, ':');
        }
        return None;
    }
    proof {
        lemma_find_char_at(body, ':', colon - (pos + 3));
    }
    if colon + 1 >= line_end || chars[colon + 1] != ' ' {
        return None;
    }
    let ghost key = body.subrange(0, colon - (pos + 3));
    let ghost val = body.subrange(colon - (pos + 3) + 2, body.len() as int);
    // copy out the key and the value
    let mut key_chars: Vec<char> = Vec::new();
    let mut i: usize = pos + 3;
    while i < colon
        invariant
            pos + 3 <= i <= colon <= chars@.len(),
            key_chars@ == chars@.subrange(pos + 3int, i as int),
        decreases colon - i,
    {
        key_chars.push(chars[i]);
        i = i + 1;
        proof {
            assert(key_chars@ =~= chars@.subrange(pos + 3int, i as int));
        }
    }
    proof {
        assert(key =~= chars@.subrange(pos + 3int, colon as int));
    }
    let mut val_chars: Vec<char> = Vec::new();
    let mut i2: usize = colon + 2;
    while i2 < line_end
        invariant
            colon + 2 <= i2 <= line_end <= chars@.len(),
            val_chars@ == chars@.subrange(colon + 2int, i2 as int),
        decreases line_end - i2,
    {
        val_chars.push(chars[i2]);
        i2 = i2 + 1;
        proof {
            assert(val_chars@ =~= chars@.subrange(colon + 2int, i2 as int));
        }
    }
    proof {
        assert(val =~= chars@.subrange(colon + 2int, line_end as int));
    }
    let value = chars_to_string(&val_chars);
    let next: usize = if line_end < chars.len() {
        line_end + 1
    } else {
        line_end
    };
    proof {
        let rest = if line_end - pos < s.len() {
            s.subrange(line_end - pos + 1, s.len() as int)
        } else {
            Seq::<char>::empty()
        };
        assert(rest =~= chars@.subrange(next as int, chars@.len() as int));
    }
    if chars_eq_str(&key_chars, "Description") {
        parse_header(chars, next, Some(value), v, a)
    } else if chars_eq_str(&key_chars, "Version") {
        parse_header(chars, next, d, Some(value), a)
    } else if chars_eq_str(&key_chars, "Argument") {
        parse_header(chars, next, d, v, Some(value))
    } else {
        None
    }
}

/// No path separator anywhere in the sequence.
pub open spec fn no_slash(s: Seq<char>) -> bool {
    forall|j: int| 0 <= j < s.len() ==> s[j] != '/'
}

/// A file name with the script extension.
pub open spec fn is_lua(f: Seq<char>) -> bool {
    f.len() >= 4 && f[f.len() - 4] == '.' && f[f.len() - 3] == 'l' && f[f.len() - 2] == 'u' && f[
        f.len() - 1] == 'a'
}

/// The module name: the file name without its extension.
pub open spec fn module_name_of(f: Seq<char>) -> Seq<char> {
    f.subrange(0, f.len() - 4)
}

/// View of one module file: author, file name, text.
pub open spec fn file_views(files: Seq<ModuleFile>) -> Seq<(Seq<char>, Seq<char>, Seq<char>)> {
    files.map_values(|f: ModuleFile| (f.author@, f.filename@, f.code@))
}

/// The files with the script extension, in order; the rest are skipped.
pub open spec fn lua_views(fs: Seq<(Seq<char>, Seq<char>, Seq<char>)>) -> Seq<
    (Seq<char>, Seq<char>, Seq<char>),
>
    decreases fs.len(),
{
    if fs.len() == 0 {
        Seq::empty()
    } else {
        (if is_lua(fs[0].1) {
            seq![fs[0]]
        } else {
            Seq::empty()
        }) + lua_views(fs.drop_first())
    }
}

pub proof fn lemma_lua_views_push(fs: Seq<(Seq<char>, Seq<char>, Seq<char>)>, f: (Seq<char>, Seq<char>, Seq<char>))
    ensures
        lua_views(fs.push(f)) == lua_views(fs) + (if is_lua(f.1) {
            seq![f]
        } else {
            Seq::<(Seq<char>, Seq<char>, Seq<char>)>::empty()
        }),
    decreases fs.len(),
{
    if fs.len() == 0 {
        assert(fs.push(f)[0] == f);
        assert(fs.push(f).drop_first() =~= Seq::<(Seq<char>, Seq<char>, Seq<char>)>::empty());
        assert(lua_views(Seq::<(Seq<char>, Seq<char>, Seq<char>)>::empty()) == Seq::<
            (Seq<char>, Seq<char>, Seq<char>),
        >::empty());
        assert(lua_views(fs.push(f)) =~= lua_views(fs) + (if is_lua(f.1) {
            seq![f]
        } else {
            Seq::<(Seq<char>, Seq<char>, Seq<char>)>::empty()
        }));
    } else {
        assert(fs.push(f)[0] == fs[0]);
        assert(fs.push(f).drop_first() =~= fs.drop_first().push(f));
        lemma_lua_views_push(fs.drop_first(), f);
        assert(lua_views(fs.push(f)) =~= lua_views(fs) + (if is_lua(f.1) {
            seq![f]
        } else {
            Seq::<(Seq<char>, Seq<char>, Seq<char>)>::empty()
        }));
    }
}

/// The module records exactly this file.
pub open spec fn module_from_file(m: Module, f: (Seq<char>, Seq<char>, Seq<char>)) -> bool {
    &&& m.author_v() == f.0
    &&& m.name_v() == module_name_of(f.1)
    &&& m.script_v() == f.2
    &&& spec_header(f.2, None, None, None) matches Some(h) && m.description_v() == h.0
        && m.version_v() == h.1 && m.argument_v() == h.2
}

/// The registry's rows correspond one to one, in order, to the files.
pub open spec fn mods_match(mods: Seq<Module>, fs: Seq<(Seq<char>, Seq<char>, Seq<char>)>) -> bool {
    mods.len() == fs.len() && forall|k: int|
        0 <= k < mods.len() ==> module_from_file(#[trigger] mods[k], fs[k])
}

/// Every script file parses and no two name the same module.
pub open spec fn files_ok(fs: Seq<(Seq<char>, Seq<char>, Seq<char>)>) -> bool {
    &&& forall|k: int|
        0 <= k < fs.len() ==> spec_header((#[trigger] fs[k]).2, None, None, None) is Some
    &&& forall|i: int, j: int|
        0 <= i < j < fs.len() ==> !((#[trigger] fs[i]).0 == (#[trigger] fs[j]).0 && module_name_of(
            fs[i].1,
        ) == module_name_of(fs[j].1))
}

/// The load error names a script file that fails: its header does not
/// parse, or an earlier file already names the same module.
pub open spec fn load_error_names_failure(
    fs: Seq<(Seq<char>, Seq<char>, Seq<char>)>,
    e: LoadError,
) -> bool {
    exists|k: int|
        0 <= k < fs.len() && (#[trigger] fs[k]).0 == e.author@ && module_name_of(fs[k].1)
            == e.module@ && (spec_header(fs[k].2, None, None, None) is None || exists|j: int|
            0 <= j < k && (#[trigger] fs[j]).0 == fs[k].0 && module_name_of(fs[j].1)
                == module_name_of(fs[k].1))
}

/// A well-formed registry: no two modules share author and name, and
/// neither component holds a path separator.
pub open spec fn mods_wf(mods: Seq<Module>) -> bool {
    &&& forall|i: int, j: int|
        0 <= i < j < mods.len() ==> !((#[trigger] mods[i]).author_v() == (
        #[trigger] mods[j]).author_v() && mods[i].name_v() == mods[j].name_v())
    &&& forall|i: int|
        0 <= i < mods.len() ==> no_slash((#[trigger] mods[i]).author_v()) && no_slash(
            mods[i].name_v(),
        )
}

/// A reference resolves to a module by its short name or by
/// `author/name`.
pub open spec fn module_matches(m: Module, r: Seq<char>) -> bool {
    r == m.name_v() || r == m.canonical_v()
}

/// How many modules a reference resolves to.
pub open spec fn match_count(mods: Seq<Module>, r: Seq<char>) -> int
    decreases mods.len(),
{
    if mods.len() == 0 {
        0
    } else {
        (if module_matches(mods[0], r) {
            1int
        } else {
            0int
        }) + match_count(mods.drop_first(), r)
    }
}

/// How many modules carry this short name.
pub open spec fn name_count(mods: Seq<Module>, name: Seq<char>) -> int
    decreases mods.len(),
{
    if mods.len() == 0 {
        0
    } else {
        (if mods[0].name_v() == name {
            1int
        } else {
            0int
        }) + name_count(mods.drop_first(), name)
    }
}

pub proof fn lemma_match_count_push(mods: Seq<Module>, m: Module, r: Seq<char>)
    ensures
        match_count(mods.push(m), r) == match_count(mods, r) + (if module_matches(m, r) {
            1int
        } else {
            0int
        }),
    decreases mods.len(),
{
    if mods.len() == 0 {
        assert(mods.push(m)[0] == m);
        assert(mods.push(m).drop_first() =~= Seq::<Module>::empty());
        assert(match_count(Seq::<Module>::empty(), r) == 0);
    } else {
        assert(mods.push(m)[0] == mods[0]);
        assert(mods.push(m).drop_first() =~= mods.drop_first().push(m));
        lemma_match_count_push(mods.drop_first(), m, r);
    }
}

pub proof fn lemma_match_count_pos(mods: Seq<Module>, r: Seq<char>)
    ensures
        match_count(mods, r) >= 0,
        (match_count(mods, r) >= 1) <==> (exists|k: int|
            0 <= k < mods.len() && module_matches(#[trigger] mods[k], r)),
    decreases mods.len(),
{
    if mods.len() == 0 {
    } else {
        lemma_match_count_pos(mods.drop_first(), r);
        if module_matches(mods[0], r) {
        } else {
            if match_count(mods, r) >= 1 {
                let k = choose|k: int|
                    0 <= k < mods.drop_first().len() && module_matches(
                        #[trigger] mods.drop_first()[k],
                        r,
                    );
                assert(module_matches(mods[k + 1], r));
            }
            if exists|k: int| 0 <= k < mods.len() && module_matches(#[trigger] mods[k], r) {
                let k = choose|k: int|
                    0 <= k < mods.len() && module_matches(#[trigger] mods[k], r);
                assert(module_matches(mods.drop_first()[k - 1], r));
            }
        }
    }
}

pub proof fn lemma_match_count_two(mods: Seq<Module>, r: Seq<char>)
    requires
        match_count(mods, r) >= 2,
    ensures
        exists|i: int, j: int|
            0 <= i < j < mods.len() && module_matches(#[trigger] mods[i], r) && module_matches(
                #[trigger] mods[j],
                r,
            ),
    decreases mods.len(),
{
    lemma_match_count_pos(mods.drop_first(), r);
    if module_matches(mods[0], r) {
        let k = choose|k: int|
            0 <= k < mods.drop_first().len() && module_matches(#[trigger] mods.drop_first()[k], r);
        assert(module_matches(mods[k + 1], r));
        assert(0 < k + 1 < mods.len());
    } else {
        lemma_match_count_two(mods.drop_first(), r);
        let (i, j) = choose|i: int, j: int|
            0 <= i < j < mods.drop_first().len() && module_matches(
                #[trigger] mods.drop_first()[i],
                r,
            ) && module_matches(#[trigger] mods.drop_first()[j], r);
        assert(module_matches(mods[i + 1], r) && module_matches(mods[j + 1], r));
    }
}

/// Splitting `author/name` at the first separator is injective when
/// neither component holds one.
pub proof fn lemma_canonical_injective(a1: Seq<char>, n1: Seq<char>, a2: Seq<char>, n2: Seq<char>)
    requires
        no_slash(a1),
        no_slash(n1),
        no_slash(a2),
        no_slash(n2),
        a1 + seq!['/'] + n1 == a2 + seq!['/'] + n2,
    ensures
        a1 == a2,
        n1 == n2,
{
    let c = a1 + seq!['/'] + n1;
    assert(c[a1.len() as int] == '/');
    assert(c[a2.len() as int] == '/');
    if a1.len() < a2.len() {
        assert(c[a1.len() as int] == a2[a1.len() as int]);
        assert(false);
    }
    if a2.len() < a1.len() {
        assert(c[a2.len() as int] == a1[a2.len() as int]);
        assert(false);
    }
    assert forall|j: int| 0 <= j < a1.len() implies a1[j] == a2[j] by {
        assert(c[j] == a1[j]);
        assert((a2 + seq!['/'] + n2)[j] == a2[j]);
    }
    assert(a1 =~= a2);
    assert(c.len() == a1.len() + 1 + n1.len());
    assert((a2 + seq!['/'] + n2).len() == a2.len() + 1 + n2.len());
    assert(n1.len() == n2.len());
    assert forall|j: int| 0 <= j < n1.len() implies n1[j] == n2[j] by {
        assert(c[a1.len() + 1 + j] == n1[j]);
        assert((a2 + seq!['/'] + n2)[a2.len() + 1 + j] == n2[j]);
    }
    assert(n1 =~= n2);
}

/// A canonical reference never matches by short name, so in a
/// well-formed registry it resolves to at most one module.
pub proof fn lemma_canonical_unambiguous(mods: Seq<Module>, author: Seq<char>, name: Seq<char>)
    requires
        mods_wf(mods),
        no_slash(author),
        no_slash(name),
    ensures
        match_count(mods, author + seq!['/'] + name) <= 1,
{
    let r = author + seq!['/'] + name;
    lemma_match_count_pos(mods, r);
    if match_count(mods, r) >= 2 {
        lemma_match_count_two(mods, r);
        let (i, j) = choose|i: int, j: int|
            0 <= i < j < mods.len() && module_matches(#[trigger] mods[i], r) && module_matches(
                #[trigger] mods[j],
                r,
            );
        assert(r[author.len() as int] == '/');
        if r == mods[i].name_v() {
            assert(mods[i].name_v()[author.len() as int] == '/');
            assert(false);
        }
        if r == mods[j].name_v() {
            assert(mods[j].name_v()[author.len() as int] == '/');
            assert(false);
        }
        lemma_canonical_injective(
            mods[i].author_v(),
            mods[i].name_v(),
            mods[j].author_v(),
            mods[j].name_v(),
        );
        assert(false);
    }
}

/// The module registry. `reload` replaces the whole set atomically; a
/// failed reload leaves the previous registry in place.
pub struct Engine {
    modules: Vec<Module>,
}

impl Engine {
    pub closed spec fn mods(self) -> Seq<Module> {
        self.modules@
    }

    pub open spec fn wf(self) -> bool {
        mods_wf(self.mods())
    }

    /// Builds a registry from the module files the directory walk found.
    pub fn new(files: &Vec<ModuleFile>) -> (r: Result<Engine, LoadError>)
        requires
            forall|k: int|
                0 <= k < files@.len() ==> no_slash((#[trigger] files@[k]).author@) && no_slash(
                    files@[k].filename@,
                ),
        ensures
            match r {
                Ok(engine) => engine.wf() && files_ok(lua_views(file_views(files@)))
                    && mods_match(engine.mods(), lua_views(file_views(files@))),
                Err(e) => !files_ok(lua_views(file_views(files@))) && load_error_names_failure(
                    lua_views(file_views(files@)),
                    e,
                ),
            },
    {
        let mut engine = Engine { modules: Vec::new() };
        match engine.reload_modules_quiet(files) {
            Ok(_) => Ok(engine),
            Err(e) => Err(e),
        }
    }

    /// Reloads the registry; the result carries the number of modules.
    pub fn reload_modules(&mut self, files: &Vec<ModuleFile>) -> (r: Result<usize, LoadError>)
        requires
            forall|k: int|
                0 <= k < files@.len() ==> no_slash((#[trigger] files@[k]).author@) && no_slash(
                    files@[k].filename@,
                ),
        ensures
            match r {
                Ok(n) => final(self).wf() && files_ok(lua_views(file_views(files@))) && mods_match(
                    final(self).mods(),
                    lua_views(file_views(files@)),
                ) && n == final(self).mods().len(),
                Err(e) => !files_ok(lua_views(file_views(files@))) && final(self).mods() == old(
                    self,
                ).mods() && load_error_names_failure(lua_views(file_views(files@)), e),
            },
    {
        match self.reload_modules_quiet(files) {
            Ok(n) => Ok(n),
            Err(e) => Err(e),
        }
    }

    /// Builds the fresh registry into a local list and swaps it in only
    /// when every file loaded; a failure leaves the registry as it was.
    pub fn reload_modules_quiet(&mut self, files: &Vec<ModuleFile>) -> (r: Result<
        usize,
        LoadError,
    >)
        requires
            forall|k: int|
                0 <= k < files@.len() ==> no_slash((#[trigger] files@[k]).author@) && no_slash(
                    files@[k].filename@,
                ),
        ensures
            match r {
                Ok(n) => final(self).wf() && files_ok(lua_views(file_views(files@))) && mods_match(
                    final(self).mods(),
                    lua_views(file_views(files@)),
                ) && n == final(self).mods().len(),
                Err(e) => !files_ok(lua_views(file_views(files@))) && final(self).mods() == old(
                    self,
                ).mods() && load_error_names_failure(lua_views(file_views(files@)), e),
            },
    {
        let ghost all = file_views(files@);
        let mut fresh: Vec<Module> = Vec::new();
        let mut i: usize = 0;
        while i < files.len()
            invariant
                i <= files@.len(),
                all == file_views(files@),
                forall|k: int|
                    0 <= k < files@.len() ==> no_slash((#[trigger] files@[k]).author@) && no_slash(
                        files@[k].filename@,
                    ),
                mods_match(fresh@, lua_views(all.subrange(0, i as int))),
                mods_wf(fresh@),
            decreases files@.len() - i,
        {
            let ghost pre = lua_views(all.subrange(0, i as int));
            proof {
                assert(all.subrange(0, i + 1int) =~= all.subrange(0, i as int).push(
                    all[i as int],
                ));
                lemma_lua_views_push(all.subrange(0, i as int), all[i as int]);
            }
            let fname = str_to_chars(files[i].filename.as_str());
            let fl = fname.len();
            let lua = fl >= 4 && fname[fl - 4] == '.' && fname[fl - 3] == 'l' && fname[fl - 2]
                == 'u' && fname[fl - 1] == 'a';
            proof {
                assert(lua == is_lua(all[i as int].1));
            }
            if lua {
                let mut name_chars: Vec<char> = Vec::new();
                let mut k: usize = 0;
                while k < fl - 4
                    invariant
                        fl == fname@.len() >= 4,
                        k <= fl - 4,
                        name_chars@ == fname@.subrange(0, k as int),
                    decreases fl - 4 - k,
                {
                    name_chars.push(fname[k]);
                    k = k + 1;
                    proof {
                        assert(name_chars@ =~= fname@.subrange(0, k as int));
                    }
                }
                proof {
                    assert(name_chars@ =~= module_name_of(all[i as int].1));
                }
                let name = chars_to_string(&name_chars);
                let module = match Module::load(
                    files[i].author.as_str(),
                    name.as_str(),
                    files[i].code.as_str(),
                ) {
                    Ok(m) => m,
                    Err(e) => {
                        proof {
                            let bad = pre.len() as int;
                            lemma_lua_views_concat_bound(all, i as int);
                            assert(lua_views(all)[bad] == all[i as int]);
                            assert(!files_ok(lua_views(all)));
                            assert(e.author@ == all[i as int].0);
                            assert(e.module@ == module_name_of(all[i as int].1));
                            assert(load_error_names_failure(lua_views(all), e));
                        }
                        return Err(e);
                    },
                };
                // refuse a module that another file already names
                let mut j: usize = 0;
                while j < fresh.len()
                    invariant
                        j <= fresh@.len(),
                        i < files@.len(),
                        all == file_views(files@),
                        pre == lua_views(all.subrange(0, i as int)),
                        is_lua(all[i as int].1),
                        module.author_v() == all[i as int].0,
                        module.name_v() == module_name_of(all[i as int].1),
                        name@ == module.name_v(),
                        mods_match(fresh@, pre),
                        forall|t: int|
                            0 <= t < j ==> !((#[trigger] fresh@[t]).author_v()
                                == module.author_v() && fresh@[t].name_v() == module.name_v()),
                    decreases fresh@.len() - j,
                {
                    if chars_eq_str(&str_to_chars(fresh[j].author.as_str()), files[i].author.as_str())
                        && chars_eq_str(&str_to_chars(fresh[j].name.as_str()), name.as_str()) {
                        let err = LoadError { author: files[i].author.clone(), module: name };
                        proof {
                            let bad = pre.len() as int;
                            lemma_lua_views_concat_bound(all, i as int);
                            assert(lua_views(all)[bad] == all[i as int]);
                            assert(lua_views(all)[j as int] == pre[j as int]);
                            assert(module_from_file(fresh@[j as int], pre[j as int]));
                            assert((lua_views(all)[j as int]).0 == (lua_views(all)[bad]).0
                                && module_name_of((lua_views(all)[j as int]).1) == module_name_of(
                                (lua_views(all)[bad]).1,
                            ));
                            assert(!files_ok(lua_views(all)));
                            assert(err.author@ == (lua_views(all)[bad]).0);
                            assert(err.module@ == module_name_of((lua_views(all)[bad]).1));
                            assert(load_error_names_failure(lua_views(all), err));
                        }
                        return Err(err);
                    }
                    j = j + 1;
                }
                fresh.push(module);
                proof {
                    assert(mods_match(fresh@, lua_views(all.subrange(0, i + 1int))));
                    assert forall|t: int|
                        0 <= t < fresh@.len() implies no_slash(
                        (#[trigger] fresh@[t]).author_v(),
                    ) && no_slash(fresh@[t].name_v()) by {
                        let f = lua_views(all.subrange(0, i + 1int))[t];
                        assert(module_from_file(fresh@[t], f));
                        lemma_lua_views_from(all.subrange(0, i + 1int), t);
                    }
                }
            } else {
                proof {
                    assert(lua_views(all.subrange(0, i + 1int)) =~= pre);
                }
            }
            i = i + 1;
        }
        proof {
            assert(all.subrange(0, i as int) =~= all);
            assert(files_ok(lua_views(all))) by {
                assert forall|k: int|
                    0 <= k < lua_views(all).len() implies spec_header(
                    (#[trigger] lua_views(all)[k]).2,
                    None,
                    None,
                    None,
                ) is Some by {
                    assert(module_from_file(fresh@[k], lua_views(all)[k]));
                }
                assert forall|a: int, b: int|
                    0 <= a < b < lua_views(all).len() implies !((#[trigger] lua_views(all)[a]).0
                    == (#[trigger] lua_views(all)[b]).0 && module_name_of(lua_views(all)[a].1)
                    == module_name_of(lua_views(all)[b].1)) by {
                    assert(module_from_file(fresh@[a], lua_views(all)[a]));
                    assert(module_from_file(fresh@[b], lua_views(all)[b]));
                }
            }
        }
        let n = fresh.len();
        self.modules = fresh;
        Ok(n)
    }

    /// Resolves a reference: the unique module it names, `NotFound` when
    /// none matches, `Ambiguous` when a short name matches more than one.
    pub fn get(&self, name: &str) -> (r: Result<&Module, GetError>)
        ensures
            match r {
                Ok(m) => match_count(self.mods(), name@) == 1 && module_matches(*m, name@) && (
                exists|k: int| 0 <= k < self.mods().len() && #[trigger] self.mods()[k] == *m),
                Err(GetError::NotFound) => match_count(self.mods(), name@) == 0,
                Err(GetError::Ambiguous) => match_count(self.mods(), name@) >= 2,
            },
    {
        let nv = str_to_chars(name);
        let mut count: usize = 0;
        let mut found: usize = 0;
        let mut i: usize = 0;
        while i < self.modules.len()
            invariant
                i <= self.modules@.len(),
                nv@ == name@,
                count == match_count(self.modules@.subrange(0, i as int), name@),
                count <= i,
                count >= 1 ==> found < i && module_matches(self.modules@[found as int], name@),
            decreases self.modules@.len() - i,
        {
            proof {
                assert(self.modules@.subrange(0, i + 1int) =~= self.modules@.subrange(
                    0,
                    i as int,
                ).push(self.modules@[i as int]));
                lemma_match_count_push(
                    self.modules@.subrange(0, i as int),
                    self.modules@[i as int],
                    name@,
                );
            }
            let canon = self.modules[i].canonical();
            if chars_eq_str(&nv, self.modules[i].name.as_str()) || chars_eq_str(
                &nv,
                canon.as_str(),
            ) {
                if count == 0 {
                    found = i;
                }
                count = count + 1;
            }
            i = i + 1;
        }
        proof {
            assert(self.modules@.subrange(0, i as int) =~= self.modules@);
        }
        if count == 0 {
            Err(GetError::NotFound)
        } else if count > 1 {
            Err(GetError::Ambiguous)
        } else {
            proof {
                assert(0 <= found < self.mods().len() && self.mods()[found as int]
                    == self.modules@[found as int]);
            }
            Ok(&self.modules[found])
        }
    }

    /// Every module, exactly once, in load order.
    pub fn list(&self) -> (r: Vec<Module>)
        ensures
            r@.len() == self.mods().len(),
            forall|k: int|
                0 <= k < r@.len() ==> (#[trigger] r@[k]).name_v() == self.mods()[k].name_v()
                    && r@[k].author_v() == self.mods()[k].author_v() && r@[k].description_v()
                    == self.mods()[k].description_v() && r@[k].version_v()
                    == self.mods()[k].version_v() && r@[k].argument_v()
                    == self.mods()[k].argument_v() && r@[k].script_v()
                    == self.mods()[k].script_v(),
    {
        let mut out: Vec<Module> = Vec::new();
        let mut i: usize = 0;
        while i < self.modules.len()
            invariant
                i <= self.modules@.len(),
                out@.len() == i,
                forall|k: int|
                    0 <= k < i ==> (#[trigger] out@[k]).name_v() == self.modules@[k].name_v()
                        && out@[k].author_v() == self.modules@[k].author_v()
                        && out@[k].description_v() == self.modules@[k].description_v()
                        && out@[k].version_v() == self.modules@[k].version_v()
                        && out@[k].argument_v() == self.modules@[k].argument_v()
                        && out@[k].script_v() == self.modules@[k].script_v(),
            decreases self.modules@.len() - i,
        {
            out.push(self.modules[i].duplicate());
            i = i + 1;
        }
        out
    }

    /// The reference strings that resolve unambiguously: every canonical
    /// `author/name`, then each short name only one author ships.
    pub fn variants(&self) -> (r: Vec<String>)
        requires
            self.wf(),
        ensures
            r@.len() >= self.mods().len(),
            forall|k: int|
                0 <= k < self.mods().len() ==> (#[trigger] r@[k])@ == self.mods()[k].canonical_v(),
            forall|k: int| 0 <= k < r@.len() ==> match_count(self.mods(), (#[trigger] r@[k])@) >= 1,
            forall|k: int|
                self.mods().len() <= k < r@.len() ==> match_count(self.mods(), (#[trigger] r@[k])@)
                    == 1,
            forall|j: int|
                0 <= j < self.mods().len() && match_count(
                    self.mods(),
                    (#[trigger] self.mods()[j]).name_v(),
                ) == 1 ==> exists|k: int|
                    0 <= k < r@.len() && (#[trigger] r@[k])@ == self.mods()[j].name_v(),
    {
        let mut out: Vec<String> = Vec::new();
        let mut i: usize = 0;
        while i < self.modules.len()
            invariant
                self.wf(),
                i <= self.modules@.len(),
                out@.len() == i,
                forall|k: int|
                    0 <= k < i ==> (#[trigger] out@[k])@ == self.modules@[k].canonical_v(),
                forall|k: int|
                    0 <= k < i ==> match_count(self.modules@, (#[trigger] out@[k])@) >= 1,
            decreases self.modules@.len() - i,
        {
            let canon = self.modules[i].canonical();
            proof {
                lemma_match_count_pos(self.modules@, canon@);
                assert(module_matches(self.modules@[i as int], canon@));
            }
            out.push(canon);
            i = i + 1;
        }
        let mut j: usize = 0;
        let ghost base = out@;
        while j < self.modules.len()
            invariant
                self.wf(),
                base.len() == self.modules@.len(),
                out@.len() >= base.len(),
                out@.subrange(0, base.len() as int) == base,
                forall|k: int|
                    0 <= k < base.len() ==> (#[trigger] out@[k])@
                        == self.modules@[k].canonical_v(),
                forall|k: int|
                    0 <= k < base.len() ==> match_count(self.modules@, (#[trigger] out@[k])@) >= 1,
                forall|k: int|
                    base.len() <= k < out@.len() ==> match_count(
                        self.modules@,
                        (#[trigger] out@[k])@,
                    ) == 1,
                forall|j2: int|
                    0 <= j2 < j && match_count(
                        self.modules@,
                        (#[trigger] self.modules@[j2]).name_v(),
                    ) == 1 ==> exists|k: int|
                        0 <= k < out@.len() && (#[trigger] out@[k])@
                            == self.modules@[j2].name_v(),
                j <= self.modules@.len(),
            decreases self.modules@.len() - j,
        {
            let short = str_to_chars(self.modules[j].name.as_str());
            let mut count: usize = 0;
            let mut t: usize = 0;
            while t < self.modules.len()
                invariant
                    t <= self.modules@.len(),
                    short@ == self.modules@[j as int].name_v(),
                    j < self.modules@.len(),
                    count == match_count(self.modules@.subrange(0, t as int), short@),
                    count <= t,
                decreases self.modules@.len() - t,
            {
                proof {
                    assert(self.modules@.subrange(0, t + 1int) =~= self.modules@.subrange(
                        0,
                        t as int,
                    ).push(self.modules@[t as int]));
                    lemma_match_count_push(
                        self.modules@.subrange(0, t as int),
                        self.modules@[t as int],
                        short@,
                    );
                }
                let canon = self.modules[t].canonical();
                if chars_eq_str(&short, self.modules[t].name.as_str()) || chars_eq_str(
                    &short,
                    canon.as_str(),
                ) {
                    count = count + 1;
                }
                t = t + 1;
            }
            proof {
                assert(self.modules@.subrange(0, t as int) =~= self.modules@);
            }
            let ghost pre_out = out@;
            if count == 1 {
                let name = chars_to_string(&short);
                out.push(name);
                proof {
                    assert(out@.subrange(0, base.len() as int) =~= base);
                    assert((out@[out@.len() - 1])@ == self.modules@[j as int].name_v());
                }
            }
            proof {
                assert forall|j2: int|
                    0 <= j2 < j + 1 && match_count(
                        self.modules@,
                        (#[trigger] self.modules@[j2]).name_v(),
                    ) == 1 implies exists|k: int|
                    0 <= k < out@.len() && (#[trigger] out@[k])@
                        == self.modules@[j2].name_v() by {
                    if j2 < j {
                        let k = choose|k: int|
                            0 <= k < pre_out.len() && (#[trigger] pre_out[k])@
                                == self.modules@[j2].name_v();
                        assert(out@[k] == pre_out[k]);
                    } else {
                        assert(out@[out@.len() - 1]@ == self.modules@[j as int].name_v());
                    }
                }
            }
            j = j + 1;
        }
        out
    }
}

/// Each entry of the script-file projection is one of the files.
pub proof fn lemma_lua_views_from(fs: Seq<(Seq<char>, Seq<char>, Seq<char>)>, k: int)
    requires
        0 <= k < lua_views(fs).len(),
    ensures
        exists|t: int| 0 <= t < fs.len() && #[trigger] fs[t] == lua_views(fs)[k],
    decreases fs.len(),
{
    if fs.len() == 0 {
    } else {
        if is_lua(fs[0].1) && k == 0 {
            assert(fs[0] == lua_views(fs)[0]);
        } else {
            let k2 = if is_lua(fs[0].1) {
                k - 1
            } else {
                k
            };
            lemma_lua_views_from(fs.drop_first(), k2);
            let t = choose|t: int|
                0 <= t < fs.drop_first().len() && #[trigger] fs.drop_first()[t] == lua_views(
                    fs.drop_first(),
                )[k2];
            assert(fs[t + 1] == lua_views(fs)[k]);
        }
    }
}

/// The script files before position `i` are a prefix of the whole
/// projection, and the file at `i` follows them when it is a script.
pub proof fn lemma_lua_views_concat_bound(fs: Seq<(Seq<char>, Seq<char>, Seq<char>)>, i: int)
    requires
        0 <= i < fs.len(),
    ensures
        lua_views(fs).len() >= lua_views(fs.subrange(0, i)).len() + (if is_lua(fs[i].1) {
            1int
        } else {
            0int
        }),
        forall|k: int|
            0 <= k < lua_views(fs.subrange(0, i)).len() ==> #[trigger] lua_views(fs)[k]
                == lua_views(fs.subrange(0, i))[k],
        is_lua(fs[i].1) ==> lua_views(fs)[lua_views(fs.subrange(0, i)).len() as int] == fs[i],
    decreases i,
{
    if i == 0 {
        assert(lua_views(fs.subrange(0, 0)) =~= Seq::<(Seq<char>, Seq<char>, Seq<char>)>::empty());
        if is_lua(fs[0].1) {
            assert(lua_views(fs)[0] == fs[0]);
        }
    } else {
        let rest = fs.drop_first();
        lemma_lua_views_concat_bound(rest, i - 1);
        assert(fs.subrange(0, i).drop_first() =~= rest.subrange(0, i - 1));
        assert(rest[i - 1] == fs[i]);
        if is_lua(fs[0].1) {
            assert(lua_views(fs) =~= seq![fs[0]] + lua_views(rest));
            assert(lua_views(fs.subrange(0, i)) =~= seq![fs[0]] + lua_views(
                rest.subrange(0, i - 1),
            ));
        } else {
            assert(lua_views(fs) =~= lua_views(rest));
            assert(lua_views(fs.subrange(0, i)) =~= lua_views(rest.subrange(0, i - 1)));
        }
    }
}

/// Registry determinism: a canonical `author/name` reference is never
/// ambiguous, and a short reference resolves to exactly as many modules
/// as carry that name — it is ambiguous exactly when two or more authors
/// ship a module with that name.
pub proof fn lemma_registry_determinism(mods: Seq<Module>, author: Seq<char>, name: Seq<char>)
    requires
        mods_wf(mods),
        no_slash(author),
        no_slash(name),
    ensures
        match_count(mods, author + seq!['/'] + name) <= 1,
        match_count(mods, name) == name_count(mods, name),
    decreases mods.len(),
{
    lemma_canonical_unambiguous(mods, author, name);
    if mods.len() == 0 {
    } else {
        assert(mods_wf(mods.drop_first())) by {
            assert(forall|i: int|
                0 <= i < mods.drop_first().len() ==> #[trigger] mods.drop_first()[i] == mods[i
                    + 1]);
        }
        lemma_registry_determinism(mods.drop_first(), author, name);
        // a short reference cannot equal a canonical one
        if name == mods[0].canonical_v() {
            assert(name[mods[0].author_v().len() as int] == '/');
            assert(false);
        }
    }
}

} // verus!
