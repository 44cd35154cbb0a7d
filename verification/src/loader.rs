//! Loading a module and its whole import graph. The host reads the files;
//! the loader resolves import headers, namespaces, cycles and repeats, and
//! parses each file once into one book.
use crate::book::{Book, Declaration};
use crate::lexer::ParseError;
use crate::parser::{parse_into, FloatSyntax, ForeignDefinition, ParseState, SourceOrigin};
use crate::lexer::spec_starts_at;
use crate::paths::{is_absolute, join, normalize_namespace, spec_extension};
use crate::text::{
    before_char, chars_of, concat, debug_quoted, joined, lines, split_whitespace, str_eq, string_of, trim, utf8_bytes,
};
use vstd::prelude::*;

verus! {

/// The deepest chain of nested imports.
pub const IMPORT_DEPTH: usize = 64;

/// What the loader asks of the host: canonical paths, file contents and
/// the bundled libraries. Any answer is accepted; failures become errors.
pub trait ModuleFiles {
    /// The canonical form of `path`, or why it has none.
    fn canonical(&self, path: &str) -> Result<String, String>;

    /// The text of the file at a canonical path, or why it cannot be read.
    fn read(&self, path: &str) -> Result<String, String>;

    /// The bundled proof library that `import Base` loads.
    fn base(&self) -> String;

    /// The bundled execution library that `import Base` adds to executable loads.
    fn executable_base(&self) -> String;
}

/// A parsed program with its foreign contracts, for execution only.
pub struct ExecutableSource {
    pub book: Book,
    pub foreign: Vec<(String, ForeignDefinition)>,
    pub constructor_tags: Vec<(String, String)>,
    pub base_names: Vec<String>,
}

/// The state of one load.
pub struct Loader<'h> {
    pub state: ParseState,
    pub seen: Vec<(String, String)>,
    pub active: Vec<String>,
    pub base: bool,
    pub executable: bool,
    pub base_names: Vec<String>,
    pub files: &'h dyn ModuleFiles,
    pub floats: &'h dyn FloatSyntax,
}

/// A failure at the start of a file.
fn file_error(path: &str, message: String) -> (r: ParseError)
    ensures
        r.source@ == path@,
        r.line == 1,
        r.column == 1,
        r.message == message,
{
    ParseError { source: path.to_owned(), line: 1, column: 1, message }
}

/// Where a path ends once its trailing slashes are dropped (a lone `/`
/// stays).
pub open spec fn trimmed_end(cs: Seq<char>) -> int
    decreases cs.len(),
{
    if cs.len() > 1 && cs.last() == '/' {
        trimmed_end(cs.drop_last())
    } else {
        cs.len() as int
    }
}

/// Where the last segment of a text starts: just after its last `/`, or 0.
pub open spec fn last_segment_start(cs: Seq<char>) -> int
    decreases cs.len(),
{
    if cs.len() == 0 {
        0
    } else if cs.last() == '/' {
        cs.len() as int
    } else {
        last_segment_start(cs.drop_last())
    }
}

/// The directory part of a path: `.` where there is none (an empty path or
/// the root alone), empty for a bare name, `/` for a name at the root, else
/// everything before the slash that precedes the last segment.
pub open spec fn spec_parent(path: Seq<char>) -> Seq<char> {
    let e = trimmed_end(path);
    let k = last_segment_start(path.take(e));
    if e == 0 || (e == 1 && path[0] == '/') {
        seq!['.']
    } else if k == 0 {
        Seq::empty()
    } else if k == 1 {
        seq!['/']
    } else {
        path.take(k - 1)
    }
}

/// The directory part of a path: everything before its last segment, or
/// `.` where the path has no directory part.
pub fn parent(path: &str) -> (r: String)
    ensures
        r@ == spec_parent(path@),
{
    let cs = chars_of(path);
    let mut end: usize = cs.len();
    proof {
        assert(cs@.take(end as int) =~= cs@);
    }
    while end > 1 && cs[end - 1] == '/'
        invariant
            end <= cs@.len(),
            cs@ == path@,
            trimmed_end(cs@) == trimmed_end(cs@.take(end as int)),
        decreases end,
    {
        proof {
            assert(cs@.take(end as int).drop_last() =~= cs@.take(end - 1));
        }
        end = end - 1;
    }
    proof {
        assert(trimmed_end(cs@.take(end as int)) == end);
    }
    let mut k: usize = end;
    proof {
        assert(cs@.take(end as int).take(k as int) =~= cs@.take(end as int));
    }
    while k > 0 && cs[k - 1] != '/'
        invariant
            k <= end <= cs@.len(),
            last_segment_start(cs@.take(end as int)) == last_segment_start(cs@.take(end as int).take(k as int)),
        decreases k,
    {
        proof {
            assert(cs@.take(end as int).take(k as int).drop_last() =~= cs@.take(end as int).take(k - 1));
        }
        k = k - 1;
    }
    proof {
        assert(last_segment_start(cs@.take(end as int).take(k as int)) == k);
    }
    if end == 0 || (end == 1 && cs[0] == '/') {
        proof {
            reveal_strlit(".");
        }
        ".".to_owned()
    } else if k == 0 {
        String::new()
    } else if k == 1 {
        proof {
            reveal_strlit("/");
        }
        "/".to_owned()
    } else {
        string_of(vstd::slice::slice_subrange(cs.as_slice(), 0, k - 1))
    }
}

/// The index of the last `/` of `s`, or -1 where it has none.
pub open spec fn last_slash(s: Seq<char>) -> int
    decreases s.len(),
{
    if s.len() == 0 {
        -1
    } else if s.last() == '/' {
        s.len() - 1
    } else {
        last_slash(s.drop_last())
    }
}

pub proof fn lemma_last_slash(s: Seq<char>)
    ensures
        -1 <= last_slash(s) < s.len(),
        last_slash(s) >= 0 ==> s[last_slash(s)] == '/',
        forall|j: int| last_slash(s) < j < s.len() ==> s[j] != '/',
    decreases s.len(),
{
    if s.len() > 0 && s.last() != '/' {
        lemma_last_slash(s.drop_last());
        assert forall|j: int| last_slash(s) < j < s.len() implies s[j] != '/' by {
            if j < s.len() - 1 {
                assert(s[j] == s.drop_last()[j]);
            }
        }
    }
}

/// The namespace directory of a namespace: everything before its last `/`,
/// or nothing where it has none.
pub open spec fn spec_namespace_parent(namespace: Seq<char>) -> Seq<char> {
    let k = last_slash(namespace);
    if k < 0 {
        seq![]
    } else {
        namespace.subrange(0, k)
    }
}

fn namespace_parent(namespace: &str) -> (r: String)
    ensures
        r@ == spec_namespace_parent(namespace@),
{
    let cs = chars_of(namespace);
    let mut k: usize = cs.len();
    proof {
        assert(namespace@.subrange(0, k as int) =~= namespace@);
    }
    while k > 0 && cs[k - 1] != '/'
        invariant
            k <= cs@.len(),
            cs@ == namespace@,
            last_slash(namespace@) == last_slash(namespace@.subrange(0, k as int)),
        decreases k,
    {
        proof {
            assert(namespace@.subrange(0, k as int).drop_last() =~= namespace@.subrange(0, k - 1));
        }
        k = k - 1;
    }
    proof {
        if k > 0 {
            assert(namespace@.subrange(0, k as int).last() == '/');
        } else {
            assert(namespace@.subrange(0, 0) =~= Seq::<char>::empty());
        }
    }
    if k == 0 {
        String::new()
    } else {
        string_of(vstd::slice::slice_subrange(cs.as_slice(), 0, k - 1))
    }
}

/// An ASCII letter or `_`.
pub open spec fn alias_start(c: char) -> bool {
    ('a' <= c <= 'z') || ('A' <= c <= 'Z') || c == '_'
}

/// An ASCII letter, digit or `_`.
pub open spec fn alias_char(c: char) -> bool {
    ('a' <= c <= 'z') || ('A' <= c <= 'Z') || ('0' <= c <= '9') || c == '_'
}

/// Whether an alias is a simple name: a letter or `_`, then letters,
/// digits and `_`.
pub fn simple_alias(alias: &str) -> (r: bool)
    ensures
        r == (alias@.len() > 0 && alias_start(alias@[0]) && forall|i: int| 0 <= i < alias@.len() ==> alias_char(#[trigger] alias@[i])),
{
    let cs = chars_of(alias);
    if cs.len() == 0 {
        return false;
    }
    let first = cs[0];
    if !(('a' <= first && first <= 'z') || ('A' <= first && first <= 'Z') || first == '_') {
        return false;
    }
    let mut k: usize = 0;
    while k < cs.len()
        invariant
            k <= cs@.len(),
            cs@ == alias@,
            forall|i: int| 0 <= i < k ==> alias_char(#[trigger] alias@[i]),
        decreases cs@.len() - k,
    {
        let c = cs[k];
        if !(('a' <= c && c <= 'z') || ('A' <= c && c <= 'Z') || ('0' <= c && c <= '9') || c == '_') {
            proof {
                assert(!alias_char(alias@[k as int]));
            }
            return false;
        }
        k = k + 1;
    }
    true
}

/// Whether a trimmed line is an import header: `import` alone or followed
/// by white space.
pub fn is_import_line(text: &Vec<char>) -> (r: bool)
    ensures
        r == (text@.len() >= 6 && text@.subrange(0, 6) == "import"@ && (text@.len() == 6
            || crate::lexer::spec_is_whitespace(text@[6]))),
{
    proof {
        reveal_strlit("import");
    }
    let word = chars_of("import");
    if !crate::lexer::starts_at(text, 0, &word) {
        return false;
    }
    let n = word.len();
    text.len() == n || (n < text.len() && crate::lexer::is_whitespace(text[n]))
}

/// The byte offset of the first `import` in a line, or 0 where it has none
/// (past `usize::MAX`, `usize::MAX`).
fn import_offset(line: &Vec<char>) -> (r: usize)
    ensures
        (exists|k: int|
            0 <= k <= line@.len() && spec_starts_at(line@, k, "import"@) && (forall|j: int| 0 <= j < k ==> !spec_starts_at(line@, j, "import"@))
                && r == (if utf8_bytes(line@.subrange(0, k)) <= usize::MAX { utf8_bytes(line@.subrange(0, k)) as usize } else { usize::MAX }))
            || ((forall|j: int| 0 <= j <= line@.len() ==> !spec_starts_at(line@, j, "import"@)) && r == 0),
{
    let word = chars_of("import");
    let mut bytes: usize = 0;
    let mut k: usize = 0;
    while k < line.len()
        invariant
            k <= line@.len(),
            word@ == "import"@,
            forall|j: int| 0 <= j < k ==> !spec_starts_at(line@, j, "import"@),
            bytes == (if utf8_bytes(line@.subrange(0, k as int)) <= usize::MAX { utf8_bytes(line@.subrange(0, k as int)) as usize } else { usize::MAX }),
        decreases line@.len() - k,
    {
        if crate::lexer::starts_at(line, k, &word) {
            return bytes;
        }
        let n = crate::lexer::utf8_len(line[k]);
        proof {
            assert(line@.subrange(0, k + 1).drop_last() =~= line@.subrange(0, k as int));
        }
        bytes = if bytes <= usize::MAX - n { bytes + n } else { usize::MAX };
        k = k + 1;
    }
    proof {
        reveal_strlit("import");
        assert forall|j: int| 0 <= j <= line@.len() implies !spec_starts_at(line@, j, "import"@) by {
            if j == line@.len() {
                assert("import"@.len() == 6);
            }
        }
    }
    0
}

/// Whether a path has the extension `bend`.
fn bend_extension(path: &str) -> (r: bool)
    ensures
        r == (spec_extension(path@) == Some("bend"@)),
{
    match crate::paths::extension(path) {
        Some(e) => str_eq(e.as_str(), "bend"),
        None => false,
    }
}

/// `namespace` without a final `.bend`.
fn strip_bend(namespace: &str) -> (r: String)
    ensures
        r@ == (if namespace@.len() >= ".bend"@.len() && spec_starts_at(namespace@, namespace@.len() - ".bend"@.len(), ".bend"@) {
            namespace@.subrange(0, namespace@.len() - ".bend"@.len())
        } else {
            namespace@
        }),
{
    let cs = chars_of(namespace);
    let suffix = chars_of(".bend");
    if cs.len() >= suffix.len() && crate::lexer::starts_at(&cs, cs.len() - suffix.len(), &suffix) {
        string_of(vstd::slice::slice_subrange(cs.as_slice(), 0, cs.len() - suffix.len()))
    } else {
        namespace.to_owned()
    }
}

impl<'h> Loader<'h> {
    pub open spec fn wf(&self) -> bool {
        self.state.wf() && self.active@.len() <= IMPORT_DEPTH
    }

    pub fn new(executable: bool, files: &'h dyn ModuleFiles, floats: &'h dyn FloatSyntax) -> (r: Loader<'h>)
        ensures
            r.wf(),
            r.active@.len() == 0,
            r.executable == executable,
    {
        Loader {
            state: ParseState::new(executable),
            seen: Vec::new(),
            active: Vec::new(),
            base: false,
            executable,
            base_names: Vec::new(),
            files,
            floats,
        }
    }

    /// Whether a canonical path is being loaded right now.
    fn is_active(&self, canonical: &str) -> (r: bool)
        ensures
            r == exists|k: int| 0 <= k < self.active@.len() && (#[trigger] self.active@[k])@ == canonical@,
    {
        let mut k: usize = 0;
        while k < self.active.len()
            invariant
                k <= self.active@.len(),
                forall|j: int| 0 <= j < k ==> (#[trigger] self.active@[j])@ != canonical@,
            decreases self.active@.len() - k,
        {
            if str_eq(self.active[k].as_str(), canonical) {
                return true;
            }
            k = k + 1;
        }
        false
    }

    /// Load the file at `path` into `namespace`, after its imports.
    pub fn file(&mut self, path: &str, namespace: &str) -> (r: Result<(), ParseError>)
        requires
            old(self).wf(),
        ensures
            final(self).wf(),
            r is Ok ==> final(self).active@ == old(self).active@,
            old(self).active@.len() >= IMPORT_DEPTH ==> (r matches Err(e) && e.source@ == path@ && e.line == 1
                && e.column == 1),
        decreases IMPORT_DEPTH - old(self).active@.len(),
    {
        let canonical = match self.files.canonical(path) {
            Ok(r) => r,
            Err(e) => {
                return Err(file_error(path, e));
            },
        };
        if self.active.len() >= IMPORT_DEPTH {
            return Err(file_error(path, "import nesting exceeds the loader resource limit of 64".to_owned()));
        }
        if self.is_active(canonical.as_str()) {
            return Err(file_error(path, "import cycle".to_owned()));
        }
        if let Some(prior) = crate::parser::lookup(&self.seen, canonical.as_str()) {
            if !str_eq(prior.as_str(), namespace) {
                let message = concat(
                    concat(concat("one namespace per file: ", debug_quoted(prior.as_str()).as_str()).as_str(), " and ").as_str(),
                    debug_quoted(namespace).as_str(),
                );
                return Err(file_error(path, message));
            }
            return Ok(());
        }
        let depth = self.active.len();
        self.active.push(canonical.clone());
        let source = match self.files.read(canonical.as_str()) {
            Ok(s) => s,
            Err(e) => {
                return Err(file_error(path, e));
            },
        };
        let mut aliases: Vec<(String, String)> = Vec::new();
        let mut cleaned: Vec<char> = Vec::new();
        let mut header = true;
        let all = lines(source.as_str());
        let mut number: usize = 0;
        while number < all.len()
            invariant
                self.wf(),
                self.active@ == old(self).active@.push(canonical),
                depth == old(self).active@.len(),
                depth < IMPORT_DEPTH,
                number <= all@.len(),
            decreases all@.len() - number,
        {
            let line = &all[number];
            let text = trim(&before_char(line, '#'));
            if header && is_import_line(&text) {
                let column = import_offset(line);
                let line_no = number + 1;
                let parts = split_whitespace(&text);
                if parts.len() == 2 && str_eq(parts[1].as_str(), "Base") {
                    if !self.base {
                        self.base = true;
                        self.embedded_base()?;
                    }
                } else if parts.len() == 4 && str_eq(parts[2].as_str(), "as") {
                    let relative = parts[1].as_str();
                    let alias = parts[3].as_str();
                    if !bend_extension(relative) || !simple_alias(alias) {
                        return Err(import_failure(path, line_no, column, "expected a .bend path and a simple alias".to_owned()));
                    }
                    if starts_with_hex_prefix(relative) {
                        return Err(import_failure(path, line_no, column, "hub package imports are not supported; use a local .bend module".to_owned()));
                    }
                    if crate::parser::lookup(&aliases, alias).is_some() {
                        return Err(import_failure(path, line_no, column, crate::text::concat("duplicate import alias: ", alias)));
                    }
                    let at = join(parent(path).as_str(), relative);
                    let full = if is_absolute(relative) {
                        normalize_namespace(relative)
                    } else {
                        let directory = namespace_parent(namespace);
                        normalize_namespace(joined(directory.as_str(), '/', relative).as_str())
                    };
                    let sub = strip_bend(full.as_str());
                    aliases.push((alias.to_owned(), sub.clone()));
                    self.file(at.as_str(), sub.as_str())?;
                } else {
                    return Err(import_failure(path, line_no, column, "expected 'import Base' or 'import path.bend as Name'".to_owned()));
                }
                cleaned.push('\n');
            } else {
                if text.len() > 0 {
                    header = false;
                }
                let mut k: usize = 0;
                while k < line.len()
                    invariant
                        k <= line@.len(),
                    decreases line@.len() - k,
                {
                    cleaned.push(line[k]);
                    k = k + 1;
                }
                cleaned.push('\n');
            }
            number = number + 1;
        }
        let directory = parent(canonical.as_str());
        let cleaned = string_of(cleaned.as_slice());
        let executable = self.executable;
        parse_into(cleaned.as_str(), path, namespace, aliases, SourceOrigin::Local(directory), executable, &mut self.state, self.floats)?;
        self.active.pop();
        self.seen.push((canonical, namespace.to_owned()));
        Ok(())
    }

    /// Parse the bundled library once, and for executable loads its effects,
    /// recording every name it declares.
    fn embedded_base(&mut self) -> (r: Result<(), ParseError>)
        requires
            old(self).wf(),
        ensures
            final(self).wf(),
            final(self).active == old(self).active,
    {
        let start = self.state.book.declarations.len();
        let base = self.files.base();
        parse_into(base.as_str(), "<Base>", "", Vec::new(), SourceOrigin::Bundled, false, &mut self.state, self.floats)?;
        if self.executable {
            let effects = self.files.executable_base();
            parse_into(effects.as_str(), "<Base effects>", "", Vec::new(), SourceOrigin::Bundled, true, &mut self.state, self.floats)?;
            let mut k: usize = start;
            while k < self.state.book.declarations.len()
                invariant
                    start <= k,
                    self.wf(),
                    self.active == old(self).active,
                decreases self.state.book.declarations@.len() - k,
            {
                let name = match &self.state.book.declarations[k] {
                    Declaration::Def(d) => d.name.clone(),
                    Declaration::Adt(a) => a.name.clone(),
                };
                insert_name(&mut self.base_names, name);
                k = k + 1;
            }
        }
        Ok(())
    }
}

/// A failure at an import header.
fn import_failure(path: &str, line: usize, column: usize, message: String) -> (r: ParseError)
    ensures
        r.source@ == path@,
        r.line == line,
        r.message == message,
{
    let column = if column < usize::MAX { column + 1 } else { column };
    ParseError { source: path.to_owned(), line, column, message }
}

/// Whether a path starts with `0x`.
fn starts_with_hex_prefix(path: &str) -> (r: bool)
    ensures
        r == (path@.len() >= 2 && path@[0] == '0' && path@[1] == 'x'),
{
    let cs = chars_of(path);
    cs.len() >= 2 && cs[0] == '0' && cs[1] == 'x'
}

/// Add a name unless it is there already.
fn insert_name(names: &mut Vec<String>, name: String)
    ensures
        (exists|k: int| 0 <= k < old(names)@.len() && (#[trigger] old(names)@[k])@ == name@) ==> final(names)@
            == old(names)@,
        (forall|k: int| 0 <= k < old(names)@.len() ==> (#[trigger] old(names)@[k])@ != name@) ==> final(names)@
            == old(names)@.push(name),
{
    let mut k: usize = 0;
    while k < names.len()
        invariant
            k <= names@.len(),
            names@ == old(names)@,
            forall|j: int| 0 <= j < k ==> (#[trigger] names@[j])@ != name@,
        decreases names@.len() - k,
    {
        if str_eq(names[k].as_str(), name.as_str()) {
            return;
        }
        k = k + 1;
    }
    names.push(name);
}

/// Read a local module and its whole import graph into a book.
pub fn load(path: &str, files: &dyn ModuleFiles, floats: &dyn FloatSyntax) -> (r: Result<Book, ParseError>) {
    let mut loader = Loader::new(false, files, floats);
    loader.file(path, "")?;
    Ok(loader.state.book)
}

/// Read a local program with the execution library and its foreign contracts.
pub fn load_executable(path: &str, files: &dyn ModuleFiles, floats: &dyn FloatSyntax) -> (r: Result<ExecutableSource, ParseError>) {
    let mut loader = Loader::new(true, files, floats);
    loader.file(path, "")?;
    let Loader { state, base_names, .. } = loader;
    let ParseState { book, foreign, constructor_tags, .. } = state;
    Ok(ExecutableSource {
        book,
        foreign: match foreign {
            Some(f) => f,
            None => Vec::new(),
        },
        constructor_tags: match constructor_tags {
            Some(t) => t,
            None => Vec::new(),
        },
        base_names,
    })
}

} // verus!
